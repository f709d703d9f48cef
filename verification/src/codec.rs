//! The wire format.
//!
//! A message is a four byte ASCII type tag, one reserved framing byte,
//! and the payload.  The payload encodes integers as four little-endian
//! base-256 digits, a string as its character count followed by one
//! encoded code point per character, and a list as its length followed
//! by its elements.  Decoding inverts encoding exactly; trailing bytes
//! are rejected.

use crate::ops::{
    HeartbeatOperation, JoinOperation, LeaveOperation, MemberInitializationOperation,
    NewMemberOperation, Operation,
};
use crate::order::id_views;
use crate::Error;
use vstd::arithmetic::div_mod::{lemma_div_denominator, lemma_fundamental_div_mod};
use vstd::prelude::*;
use vstd::utf8::is_scalar;

verus! {

/// The value of one operation, with every string read as its
/// characters.
pub enum OpView {
    Heartbeat { id: Seq<char> },
    Join { id: Seq<char>, tcp_addr: Seq<char> },
    Leave { id: Seq<char> },
    NewMember { id: Seq<char>, tcp_addr: Seq<char> },
    MemberInit {
        membership: Seq<Seq<char>>,
        udp_to_tcp: Seq<(Seq<char>, Seq<char>)>,
        owners: Seq<(Seq<char>, Seq<Seq<char>>)>,
    },
}

pub open spec fn pair_views(v: Seq<(String, String)>) -> Seq<(Seq<char>, Seq<char>)> {
    v.map_values(|p: (String, String)| (p.0@, p.1@))
}

pub open spec fn owner_views(v: Seq<(String, Vec<String>)>) -> Seq<(Seq<char>, Seq<Seq<char>>)> {
    v.map_values(|p: (String, Vec<String>)| (p.0@, id_views(p.1@)))
}

impl View for Operation {
    type V = OpView;

    open spec fn view(&self) -> OpView {
        match self {
            Operation::Heartbeat(h) => OpView::Heartbeat { id: h.id@ },
            Operation::Join(j) => OpView::Join { id: j.id@, tcp_addr: j.tcp_addr@ },
            Operation::Leave(l) => OpView::Leave { id: l.id@ },
            Operation::NewMember(n) => OpView::NewMember { id: n.id@, tcp_addr: n.tcp_addr@ },
            Operation::MemberInit(m) => OpView::MemberInit {
                membership: id_views(m.membership_list@),
                udp_to_tcp: pair_views(m.udp_to_tcp_map@),
                owners: owner_views(m.all_file_owners@),
            },
        }
    }
}

pub open spec fn fits_u32(n: nat) -> bool {
    n < 0x100000000
}

/// Every length in the operation fits the four byte length fields.
pub open spec fn op_sizes_ok(v: OpView) -> bool {
    match v {
        OpView::Heartbeat { id } => fits_u32(id.len()),
        OpView::Join { id, tcp_addr } => fits_u32(id.len()) && fits_u32(tcp_addr.len()),
        OpView::Leave { id } => fits_u32(id.len()),
        OpView::NewMember { id, tcp_addr } => fits_u32(id.len()) && fits_u32(tcp_addr.len()),
        OpView::MemberInit { membership, udp_to_tcp, owners } => {
            &&& fits_u32(membership.len())
            &&& (forall|i: int| 0 <= i < membership.len() ==> fits_u32(membership[i].len()))
            &&& fits_u32(udp_to_tcp.len())
            &&& (forall|i: int|
                0 <= i < udp_to_tcp.len() ==> fits_u32(udp_to_tcp[i].0.len()) && fits_u32(
                    udp_to_tcp[i].1.len(),
                ))
            &&& fits_u32(owners.len())
            &&& (forall|i: int|
                0 <= i < owners.len() ==> fits_u32(owners[i].0.len()) && fits_u32(
                    owners[i].1.len(),
                ) && (forall|j: int| 0 <= j < owners[i].1.len() ==> fits_u32(owners[i].1[j].len())))
        },
    }
}

pub open spec fn enc_u32(n: int) -> Seq<u8> {
    seq![
        (n % 256) as u8,
        ((n / 256) % 256) as u8,
        ((n / 65536) % 256) as u8,
        ((n / 16777216) % 256) as u8,
    ]
}

pub open spec fn dec_u32_at(b: Seq<u8>) -> int
    recommends
        b.len() >= 4,
{
    b[0] + 256 * b[1] + 65536 * b[2] + 16777216 * b[3]
}

/// Reads four bytes, returns the value and the rest.
pub open spec fn dec_u32(b: Seq<u8>) -> Option<(int, Seq<u8>)> {
    if b.len() < 4 {
        None
    } else {
        Some((dec_u32_at(b), b.skip(4)))
    }
}

pub proof fn lemma_u32_round(n: int, rest: Seq<u8>)
    requires
        0 <= n < 0x100000000,
    ensures
        enc_u32(n).len() == 4,
        dec_u32(enc_u32(n) + rest) == Some((n, rest)),
{
    lemma_fundamental_div_mod(n, 256);
    lemma_fundamental_div_mod(n / 256, 256);
    lemma_fundamental_div_mod(n / 65536, 256);
    lemma_div_denominator(n, 256, 256);
    lemma_div_denominator(n, 65536, 256);
    assert(n / 256 / 256 == n / 65536);
    assert(n / 65536 / 256 == n / 16777216);
    assert(n / 16777216 < 256) by {
        lemma_div_denominator(n, 16777216, 256);
        assert(n / 16777216 / 256 == n / 0x100000000);
    }
    let b = enc_u32(n) + rest;
    assert(b[0] == (n % 256) as u8);
    assert(b[1] == ((n / 256) % 256) as u8);
    assert(b[2] == ((n / 65536) % 256) as u8);
    assert(b[3] == ((n / 16777216) % 256) as u8);
    assert(dec_u32_at(b) == n);
    assert(b.skip(4) =~= rest);
}

pub open spec fn enc_char(c: char) -> Seq<u8> {
    enc_u32(c as u32 as int)
}

pub open spec fn enc_chars(s: Seq<char>) -> Seq<u8>
    decreases s.len(),
{
    if s.len() == 0 {
        Seq::empty()
    } else {
        enc_char(s.first()) + enc_chars(s.drop_first())
    }
}

/// Reads `n` characters, each a four byte Unicode scalar value.
pub open spec fn dec_chars(b: Seq<u8>, n: nat) -> Option<(Seq<char>, Seq<u8>)>
    decreases n,
{
    if n == 0 {
        Some((Seq::empty(), b))
    } else {
        match dec_u32(b) {
            None => None,
            Some((u, rest)) => {
                if !is_scalar(u as u32) {
                    None
                } else {
                    match dec_chars(rest, (n - 1) as nat) {
                        None => None,
                        Some((s, rest2)) => Some((seq![(u as u32) as char] + s, rest2)),
                    }
                }
            },
        }
    }
}

pub proof fn lemma_chars_round(s: Seq<char>, rest: Seq<u8>)
    ensures
        dec_chars(enc_chars(s) + rest, s.len()) == Some((s, rest)),
    decreases s.len(),
{
    if s.len() == 0 {
        assert(enc_chars(s) + rest =~= rest);
        assert(Seq::<char>::empty() =~= s);
    } else {
        let c = s.first();
        vstd::utf8::char_is_scalar(c);
        vstd::utf8::char_u32_cast(c, c as u32);
        assert(enc_chars(s) + rest =~= enc_char(c) + (enc_chars(s.drop_first()) + rest));
        lemma_u32_round(c as u32 as int, enc_chars(s.drop_first()) + rest);
        lemma_chars_round(s.drop_first(), rest);
        assert(seq![c] + s.drop_first() =~= s);
    }
}

pub open spec fn enc_str(s: Seq<char>) -> Seq<u8> {
    enc_u32(s.len() as int) + enc_chars(s)
}

pub open spec fn dec_str(b: Seq<u8>) -> Option<(Seq<char>, Seq<u8>)> {
    match dec_u32(b) {
        None => None,
        Some((n, rest)) => {
            if n < 0 {
                None
            } else {
                dec_chars(rest, n as nat)
            }
        },
    }
}

pub proof fn lemma_str_round(s: Seq<char>, rest: Seq<u8>)
    requires
        fits_u32(s.len()),
    ensures
        dec_str(enc_str(s) + rest) == Some((s, rest)),
{
    assert(enc_str(s) + rest =~= enc_u32(s.len() as int) + (enc_chars(s) + rest));
    lemma_u32_round(s.len() as int, enc_chars(s) + rest);
    lemma_chars_round(s, rest);
}

pub open spec fn enc_strs_from(v: Seq<Seq<char>>, i: int) -> Seq<u8>
    decreases v.len() - i,
{
    if i < 0 || i >= v.len() {
        Seq::empty()
    } else {
        enc_str(v[i]) + enc_strs_from(v, i + 1)
    }
}

pub open spec fn enc_str_list(v: Seq<Seq<char>>) -> Seq<u8> {
    enc_u32(v.len() as int) + enc_strs_from(v, 0)
}

pub open spec fn dec_strs(b: Seq<u8>, n: nat) -> Option<(Seq<Seq<char>>, Seq<u8>)>
    decreases n,
{
    if n == 0 {
        Some((Seq::empty(), b))
    } else {
        match dec_str(b) {
            None => None,
            Some((s, rest)) => match dec_strs(rest, (n - 1) as nat) {
                None => None,
                Some((v, rest2)) => Some((seq![s] + v, rest2)),
            },
        }
    }
}

pub open spec fn dec_str_list(b: Seq<u8>) -> Option<(Seq<Seq<char>>, Seq<u8>)> {
    match dec_u32(b) {
        None => None,
        Some((n, rest)) => {
            if n < 0 {
                None
            } else {
                dec_strs(rest, n as nat)
            }
        },
    }
}

pub proof fn lemma_strs_round(v: Seq<Seq<char>>, i: int, rest: Seq<u8>)
    requires
        0 <= i <= v.len(),
        forall|k: int| 0 <= k < v.len() ==> fits_u32(v[k].len()),
    ensures
        dec_strs(enc_strs_from(v, i) + rest, (v.len() - i) as nat) == Some((v.skip(i), rest)),
    decreases v.len() - i,
{
    if i == v.len() {
        assert(enc_strs_from(v, i) + rest =~= rest);
        assert(v.skip(i) =~= Seq::<Seq<char>>::empty());
    } else {
        assert(enc_strs_from(v, i) + rest =~= enc_str(v[i]) + (enc_strs_from(v, i + 1) + rest));
        lemma_str_round(v[i], enc_strs_from(v, i + 1) + rest);
        lemma_strs_round(v, i + 1, rest);
        assert(seq![v[i]] + v.skip(i + 1) =~= v.skip(i));
    }
}

pub proof fn lemma_str_list_round(v: Seq<Seq<char>>, rest: Seq<u8>)
    requires
        fits_u32(v.len()),
        forall|k: int| 0 <= k < v.len() ==> fits_u32(v[k].len()),
    ensures
        dec_str_list(enc_str_list(v) + rest) == Some((v, rest)),
{
    assert(enc_str_list(v) + rest =~= enc_u32(v.len() as int) + (enc_strs_from(v, 0) + rest));
    lemma_u32_round(v.len() as int, enc_strs_from(v, 0) + rest);
    lemma_strs_round(v, 0, rest);
    assert(v.skip(0) =~= v);
}

pub open spec fn enc_pairs_from(v: Seq<(Seq<char>, Seq<char>)>, i: int) -> Seq<u8>
    decreases v.len() - i,
{
    if i < 0 || i >= v.len() {
        Seq::empty()
    } else {
        enc_str(v[i].0) + enc_str(v[i].1) + enc_pairs_from(v, i + 1)
    }
}

pub open spec fn enc_pair_list(v: Seq<(Seq<char>, Seq<char>)>) -> Seq<u8> {
    enc_u32(v.len() as int) + enc_pairs_from(v, 0)
}

pub open spec fn dec_pairs(b: Seq<u8>, n: nat) -> Option<(Seq<(Seq<char>, Seq<char>)>, Seq<u8>)>
    decreases n,
{
    if n == 0 {
        Some((Seq::empty(), b))
    } else {
        match dec_str(b) {
            None => None,
            Some((k, rest)) => match dec_str(rest) {
                None => None,
                Some((w, rest2)) => match dec_pairs(rest2, (n - 1) as nat) {
                    None => None,
                    Some((v, rest3)) => Some((seq![(k, w)] + v, rest3)),
                },
            },
        }
    }
}

pub open spec fn dec_pair_list(b: Seq<u8>) -> Option<(Seq<(Seq<char>, Seq<char>)>, Seq<u8>)> {
    match dec_u32(b) {
        None => None,
        Some((n, rest)) => {
            if n < 0 {
                None
            } else {
                dec_pairs(rest, n as nat)
            }
        },
    }
}

pub proof fn lemma_pairs_round(v: Seq<(Seq<char>, Seq<char>)>, i: int, rest: Seq<u8>)
    requires
        0 <= i <= v.len(),
        forall|k: int|
            0 <= k < v.len() ==> fits_u32(v[k].0.len()) && fits_u32(v[k].1.len()),
    ensures
        dec_pairs(enc_pairs_from(v, i) + rest, (v.len() - i) as nat) == Some((v.skip(i), rest)),
    decreases v.len() - i,
{
    if i == v.len() {
        assert(enc_pairs_from(v, i) + rest =~= rest);
        assert(v.skip(i) =~= Seq::<(Seq<char>, Seq<char>)>::empty());
    } else {
        assert(enc_pairs_from(v, i) + rest =~= enc_str(v[i].0) + (enc_str(v[i].1)
            + (enc_pairs_from(v, i + 1) + rest)));
        lemma_str_round(v[i].0, enc_str(v[i].1) + (enc_pairs_from(v, i + 1) + rest));
        lemma_str_round(v[i].1, enc_pairs_from(v, i + 1) + rest);
        lemma_pairs_round(v, i + 1, rest);
        assert(seq![(v[i].0, v[i].1)] + v.skip(i + 1) =~= v.skip(i));
    }
}

pub proof fn lemma_pair_list_round(v: Seq<(Seq<char>, Seq<char>)>, rest: Seq<u8>)
    requires
        fits_u32(v.len()),
        forall|k: int|
            0 <= k < v.len() ==> fits_u32(v[k].0.len()) && fits_u32(v[k].1.len()),
    ensures
        dec_pair_list(enc_pair_list(v) + rest) == Some((v, rest)),
{
    assert(enc_pair_list(v) + rest =~= enc_u32(v.len() as int) + (enc_pairs_from(v, 0) + rest));
    lemma_u32_round(v.len() as int, enc_pairs_from(v, 0) + rest);
    lemma_pairs_round(v, 0, rest);
    assert(v.skip(0) =~= v);
}

pub open spec fn enc_owners_from(v: Seq<(Seq<char>, Seq<Seq<char>>)>, i: int) -> Seq<u8>
    decreases v.len() - i,
{
    if i < 0 || i >= v.len() {
        Seq::empty()
    } else {
        enc_str(v[i].0) + enc_str_list(v[i].1) + enc_owners_from(v, i + 1)
    }
}

pub open spec fn enc_owner_list(v: Seq<(Seq<char>, Seq<Seq<char>>)>) -> Seq<u8> {
    enc_u32(v.len() as int) + enc_owners_from(v, 0)
}

pub open spec fn dec_owners(b: Seq<u8>, n: nat) -> Option<
    (Seq<(Seq<char>, Seq<Seq<char>>)>, Seq<u8>),
>
    decreases n,
{
    if n == 0 {
        Some((Seq::empty(), b))
    } else {
        match dec_str(b) {
            None => None,
            Some((k, rest)) => match dec_str_list(rest) {
                None => None,
                Some((w, rest2)) => match dec_owners(rest2, (n - 1) as nat) {
                    None => None,
                    Some((v, rest3)) => Some((seq![(k, w)] + v, rest3)),
                },
            },
        }
    }
}

pub open spec fn dec_owner_list(b: Seq<u8>) -> Option<
    (Seq<(Seq<char>, Seq<Seq<char>>)>, Seq<u8>),
> {
    match dec_u32(b) {
        None => None,
        Some((n, rest)) => {
            if n < 0 {
                None
            } else {
                dec_owners(rest, n as nat)
            }
        },
    }
}

pub proof fn lemma_owners_round(v: Seq<(Seq<char>, Seq<Seq<char>>)>, i: int, rest: Seq<u8>)
    requires
        0 <= i <= v.len(),
        forall|k: int|
            0 <= k < v.len() ==> fits_u32(v[k].0.len()) && fits_u32(v[k].1.len()) && (forall|j: int|
                0 <= j < v[k].1.len() ==> fits_u32(v[k].1[j].len())),
    ensures
        dec_owners(enc_owners_from(v, i) + rest, (v.len() - i) as nat) == Some((v.skip(i), rest)),
    decreases v.len() - i,
{
    if i == v.len() {
        assert(enc_owners_from(v, i) + rest =~= rest);
        assert(v.skip(i) =~= Seq::<(Seq<char>, Seq<Seq<char>>)>::empty());
    } else {
        assert(enc_owners_from(v, i) + rest =~= enc_str(v[i].0) + (enc_str_list(v[i].1)
            + (enc_owners_from(v, i + 1) + rest)));
        lemma_str_round(v[i].0, enc_str_list(v[i].1) + (enc_owners_from(v, i + 1) + rest));
        lemma_str_list_round(v[i].1, enc_owners_from(v, i + 1) + rest);
        lemma_owners_round(v, i + 1, rest);
        assert(seq![(v[i].0, v[i].1)] + v.skip(i + 1) =~= v.skip(i));
    }
}

pub proof fn lemma_owner_list_round(v: Seq<(Seq<char>, Seq<Seq<char>>)>, rest: Seq<u8>)
    requires
        fits_u32(v.len()),
        forall|k: int|
            0 <= k < v.len() ==> fits_u32(v[k].0.len()) && fits_u32(v[k].1.len()) && (forall|j: int|
                0 <= j < v[k].1.len() ==> fits_u32(v[k].1[j].len())),
    ensures
        dec_owner_list(enc_owner_list(v) + rest) == Some((v, rest)),
{
    assert(enc_owner_list(v) + rest =~= enc_u32(v.len() as int) + (enc_owners_from(v, 0) + rest));
    lemma_u32_round(v.len() as int, enc_owners_from(v, 0) + rest);
    lemma_owners_round(v, 0, rest);
    assert(v.skip(0) =~= v);
}

/// The four byte type tag of each variant.
pub open spec fn tag_of(v: OpView) -> Seq<u8> {
    match v {
        OpView::Heartbeat { .. } => seq![72u8, 66u8, 32u8, 32u8],
        OpView::Join { .. } => seq![74u8, 79u8, 73u8, 78u8],
        OpView::Leave { .. } => seq![76u8, 69u8, 65u8, 86u8],
        OpView::NewMember { .. } => seq![78u8, 77u8, 69u8, 77u8],
        OpView::MemberInit { .. } => seq![77u8, 76u8, 73u8, 83u8],
    }
}

pub open spec fn payload_of(v: OpView) -> Seq<u8> {
    match v {
        OpView::Heartbeat { id } => enc_str(id),
        OpView::Join { id, tcp_addr } => enc_str(id) + enc_str(tcp_addr),
        OpView::Leave { id } => enc_str(id),
        OpView::NewMember { id, tcp_addr } => enc_str(id) + enc_str(tcp_addr),
        OpView::MemberInit { membership, udp_to_tcp, owners } => enc_str_list(membership)
            + enc_pair_list(udp_to_tcp) + enc_owner_list(owners),
    }
}

/// The whole framed message: tag, reserved framing byte, payload.
pub open spec fn spec_encode(v: OpView) -> Seq<u8> {
    tag_of(v) + seq![0u8] + payload_of(v)
}

/// Decodes one framed message; trailing bytes make the message invalid.
pub open spec fn spec_decode(b: Seq<u8>) -> Option<OpView> {
    if b.len() < 5 || b[4] != 0u8 {
        None
    } else {
        let p = b.skip(5);
        if b.take(4) =~= seq![72u8, 66u8, 32u8, 32u8] {
            match dec_str(p) {
                Some((id, rest)) => if rest.len() == 0 {
                    Some(OpView::Heartbeat { id })
                } else {
                    None
                },
                None => None,
            }
        } else if b.take(4) =~= seq![74u8, 79u8, 73u8, 78u8] {
            match dec_str(p) {
                Some((id, rest)) => match dec_str(rest) {
                    Some((tcp_addr, rest2)) => if rest2.len() == 0 {
                        Some(OpView::Join { id, tcp_addr })
                    } else {
                        None
                    },
                    None => None,
                },
                None => None,
            }
        } else if b.take(4) =~= seq![76u8, 69u8, 65u8, 86u8] {
            match dec_str(p) {
                Some((id, rest)) => if rest.len() == 0 {
                    Some(OpView::Leave { id })
                } else {
                    None
                },
                None => None,
            }
        } else if b.take(4) =~= seq![78u8, 77u8, 69u8, 77u8] {
            match dec_str(p) {
                Some((id, rest)) => match dec_str(rest) {
                    Some((tcp_addr, rest2)) => if rest2.len() == 0 {
                        Some(OpView::NewMember { id, tcp_addr })
                    } else {
                        None
                    },
                    None => None,
                },
                None => None,
            }
        } else if b.take(4) =~= seq![77u8, 76u8, 73u8, 83u8] {
            match dec_str_list(p) {
                Some((membership, rest)) => match dec_pair_list(rest) {
                    Some((udp_to_tcp, rest2)) => match dec_owner_list(rest2) {
                        Some((owners, rest3)) => if rest3.len() == 0 {
                            Some(OpView::MemberInit { membership, udp_to_tcp, owners })
                        } else {
                            None
                        },
                        None => None,
                    },
                    None => None,
                },
                None => None,
            }
        } else {
            None
        }
    }
}

/// Decoding inverts encoding: every operation whose lengths fit the
/// four byte length fields comes back from its own wire image.
#[verifier::rlimit(60)]
pub proof fn lemma_encode_decode(v: OpView)
    requires
        op_sizes_ok(v),
    ensures
        spec_decode(spec_encode(v)) == Some(v),
{
    let b = spec_encode(v);
    assert(b.len() >= 5);
    assert(b[4] == 0u8);
    assert(b.take(4) =~= tag_of(v));
    assert(b.skip(5) =~= payload_of(v));
    let empty = Seq::<u8>::empty();
    match v {
        OpView::Heartbeat { id } => {
            assert(payload_of(v) =~= enc_str(id) + empty);
            lemma_str_round(id, empty);
        },
        OpView::Join { id, tcp_addr } => {
            assert(payload_of(v) =~= enc_str(id) + (enc_str(tcp_addr) + empty));
            lemma_str_round(id, enc_str(tcp_addr) + empty);
            lemma_str_round(tcp_addr, empty);
        },
        OpView::Leave { id } => {
            assert(payload_of(v) =~= enc_str(id) + empty);
            lemma_str_round(id, empty);
        },
        OpView::NewMember { id, tcp_addr } => {
            assert(payload_of(v) =~= enc_str(id) + (enc_str(tcp_addr) + empty));
            lemma_str_round(id, enc_str(tcp_addr) + empty);
            lemma_str_round(tcp_addr, empty);
        },
        OpView::MemberInit { membership, udp_to_tcp, owners } => {
            assert(payload_of(v) =~= enc_str_list(membership) + (enc_pair_list(udp_to_tcp)
                + (enc_owner_list(owners) + empty)));
            lemma_str_list_round(
                membership,
                enc_pair_list(udp_to_tcp) + (enc_owner_list(owners) + empty),
            );
            lemma_pair_list_round(udp_to_tcp, enc_owner_list(owners) + empty);
            lemma_owner_list_round(owners, empty);
        },
    }
}


/// Relies on `char::from_u32`: `Some` exactly for Unicode scalar
/// values, returning the character with that code point.
#[verifier::external_body]
fn char_from_u32(u: u32) -> (r: Option<char>)
    ensures
        r is Some <==> is_scalar(u),
        r matches Some(c) ==> c as u32 == u,
{
    char::from_u32(u)
}

/// Relies on `String::push`: appends the given character.
#[verifier::external_body]
fn push_char(s: &mut String, c: char)
    ensures
        final(s)@ == old(s)@.push(c),
{
    s.push(c);
}

fn push_u32(out: &mut Vec<u8>, n: u32)
    ensures
        final(out)@ == old(out)@ + enc_u32(n as int),
{
    let ghost base = out@;
    out.push((n % 256) as u8);
    out.push(((n / 256) % 256) as u8);
    out.push(((n / 65536) % 256) as u8);
    out.push(((n / 16777216) % 256) as u8);
    proof {
        assert(out@ =~= base + enc_u32(n as int));
    }
}

fn push_str(out: &mut Vec<u8>, s: &str)
    requires
        fits_u32(s@.len()),
    ensures
        final(out)@ == old(out)@ + enc_str(s@),
{
    let ghost base = out@;
    let len = s.unicode_len();
    push_u32(out, len as u32);
    proof {
        assert((len as u32) as int == s@.len() as int);
        assert(s@.skip(0) =~= s@);
        assert(out@ + enc_chars(s@) =~= base + enc_str(s@));
    }
    let mut i: usize = 0;
    while i < len
        invariant
            i <= len,
            len == s@.len(),
            fits_u32(s@.len()),
            out@ + enc_chars(s@.skip(i as int)) == base + enc_str(s@),
        decreases len - i,
    {
        let c = s.get_char(i);
        push_u32(out, c as u32);
        proof {
            assert(s@.skip(i as int).first() == s@[i as int]);
            assert(s@.skip(i as int).drop_first() =~= s@.skip(i as int + 1));
            assert(out@ + enc_chars(s@.skip(i as int + 1)) =~= base + enc_str(s@));
        }
        i = i + 1;
    }
    proof {
        assert(enc_chars(s@.skip(len as int)) =~= Seq::<u8>::empty());
        assert(out@ =~= out@ + enc_chars(s@.skip(len as int)));
        assert(out@ =~= base + enc_str(s@));
    }
}

fn push_str_vec(out: &mut Vec<u8>, v: &Vec<String>)
    requires
        fits_u32(v@.len()),
        forall|k: int| 0 <= k < v@.len() ==> fits_u32(v@[k]@.len()),
    ensures
        final(out)@ == old(out)@ + enc_str_list(id_views(v@)),
{
    let ghost base = out@;
    let ghost ids = id_views(v@);
    let n = v.len();
    push_u32(out, n as u32);
    let mut i: usize = 0;
    while i < n
        invariant
            i <= n,
            n == v@.len(),
            ids == id_views(v@),
            fits_u32(v@.len()),
            forall|k: int| 0 <= k < v@.len() ==> fits_u32(v@[k]@.len()),
            out@ + enc_strs_from(ids, i as int) == base + enc_str_list(ids),
        decreases n - i,
    {
        proof {
            assert(ids[i as int] == v@[i as int]@);
        }
        push_str(out, v[i].as_str());
        proof {
            assert(out@ + enc_strs_from(ids, i as int + 1) =~= base + enc_str_list(ids));
        }
        i = i + 1;
    }
    proof {
        assert(enc_strs_from(ids, n as int) =~= Seq::<u8>::empty());
        assert(out@ =~= out@ + enc_strs_from(ids, n as int));
        assert(out@ =~= base + enc_str_list(ids));
    }
}

fn push_pair_vec(out: &mut Vec<u8>, v: &Vec<(String, String)>)
    requires
        fits_u32(v@.len()),
        forall|k: int|
            0 <= k < v@.len() ==> fits_u32(v@[k].0@.len()) && fits_u32(v@[k].1@.len()),
    ensures
        final(out)@ == old(out)@ + enc_pair_list(pair_views(v@)),
{
    let ghost base = out@;
    let ghost ps = pair_views(v@);
    let n = v.len();
    push_u32(out, n as u32);
    let mut i: usize = 0;
    while i < n
        invariant
            i <= n,
            n == v@.len(),
            ps == pair_views(v@),
            fits_u32(v@.len()),
            forall|k: int|
                0 <= k < v@.len() ==> fits_u32(v@[k].0@.len()) && fits_u32(v@[k].1@.len()),
            out@ + enc_pairs_from(ps, i as int) == base + enc_pair_list(ps),
        decreases n - i,
    {
        proof {
            assert(ps[i as int] == (v@[i as int].0@, v@[i as int].1@));
        }
        push_str(out, v[i].0.as_str());
        push_str(out, v[i].1.as_str());
        proof {
            assert(out@ + enc_pairs_from(ps, i as int + 1) =~= base + enc_pair_list(ps));
        }
        i = i + 1;
    }
    proof {
        assert(enc_pairs_from(ps, n as int) =~= Seq::<u8>::empty());
        assert(out@ =~= out@ + enc_pairs_from(ps, n as int));
        assert(out@ =~= base + enc_pair_list(ps));
    }
}

fn push_owner_vec(out: &mut Vec<u8>, v: &Vec<(String, Vec<String>)>)
    requires
        fits_u32(v@.len()),
        forall|k: int|
            0 <= k < v@.len() ==> fits_u32(v@[k].0@.len()) && fits_u32(v@[k].1@.len()) && (
            forall|j: int| 0 <= j < v@[k].1@.len() ==> fits_u32(v@[k].1@[j]@.len())),
    ensures
        final(out)@ == old(out)@ + enc_owner_list(owner_views(v@)),
{
    let ghost base = out@;
    let ghost ps = owner_views(v@);
    let n = v.len();
    push_u32(out, n as u32);
    let mut i: usize = 0;
    while i < n
        invariant
            i <= n,
            n == v@.len(),
            ps == owner_views(v@),
            fits_u32(v@.len()),
            forall|k: int|
                0 <= k < v@.len() ==> fits_u32(v@[k].0@.len()) && fits_u32(v@[k].1@.len()) && (
                forall|j: int| 0 <= j < v@[k].1@.len() ==> fits_u32(v@[k].1@[j]@.len())),
            out@ + enc_owners_from(ps, i as int) == base + enc_owner_list(ps),
        decreases n - i,
    {
        proof {
            assert(ps[i as int] == (v@[i as int].0@, id_views(v@[i as int].1@)));
            assert(forall|j: int|
                0 <= j < ps[i as int].1.len() ==> ps[i as int].1[j] == v@[i as int].1@[j]@);
        }
        push_str(out, v[i].0.as_str());
        push_str_vec(out, &v[i].1);
        proof {
            assert(out@ + enc_owners_from(ps, i as int + 1) =~= base + enc_owner_list(ps));
        }
        i = i + 1;
    }
    proof {
        assert(enc_owners_from(ps, n as int) =~= Seq::<u8>::empty());
        assert(out@ =~= out@ + enc_owners_from(ps, n as int));
        assert(out@ =~= base + enc_owner_list(ps));
    }
}

fn str_fits(s: &str) -> (r: bool)
    ensures
        r == fits_u32(s@.len()),
{
    s.unicode_len() <= 4294967295usize
}

impl Operation {
    /// Produces the framed wire image of this operation, or an error
    /// when some string or list cannot fit a four byte length field.
    pub fn to_bytes(&self) -> (r: Result<Vec<u8>, Error>)
        ensures
            r is Ok <==> op_sizes_ok(self@),
            r matches Ok(v) ==> v@ == spec_encode(self@),
            r matches Err(e) ==> e == Error::Oversized,
    {
        match self {
            Operation::Heartbeat(h) => h.to_bytes(),
            Operation::Join(j) => j.to_bytes(),
            Operation::Leave(l) => l.to_bytes(),
            Operation::NewMember(nm) => nm.to_bytes(),
            Operation::MemberInit(mi) => mi.to_bytes(),
        }
    }

    fn one_string_bytes(t0: u8, t1: u8, t2: u8, t3: u8, id: &String, vw: Ghost<OpView>) -> (r:
        Result<Vec<u8>, Error>)
        requires
            tag_of(vw@) == seq![t0, t1, t2, t3],
            payload_of(vw@) == enc_str(id@),
            op_sizes_ok(vw@) == fits_u32(id@.len()),
        ensures
            r is Ok <==> op_sizes_ok(vw@),
            r matches Ok(v) ==> v@ == spec_encode(vw@),
            r matches Err(e) ==> e == Error::Oversized,
    {
        if !str_fits(id.as_str()) {
            return Err(Error::Oversized);
        }
        let mut out: Vec<u8> = Vec::new();
        out.push(t0);
        out.push(t1);
        out.push(t2);
        out.push(t3);
        out.push(0u8);
        proof {
            assert(out@ =~= tag_of(vw@) + seq![0u8]);
        }
        push_str(&mut out, id.as_str());
        proof {
            assert(out@ =~= spec_encode(vw@));
        }
        Ok(out)
    }

    fn two_string_bytes(
        t0: u8,
        t1: u8,
        t2: u8,
        t3: u8,
        id: &String,
        tcp_addr: &String,
        vw: Ghost<OpView>,
    ) -> (r: Result<Vec<u8>, Error>)
        requires
            tag_of(vw@) == seq![t0, t1, t2, t3],
            payload_of(vw@) == enc_str(id@) + enc_str(tcp_addr@),
            op_sizes_ok(vw@) == (fits_u32(id@.len()) && fits_u32(tcp_addr@.len())),
        ensures
            r is Ok <==> op_sizes_ok(vw@),
            r matches Ok(v) ==> v@ == spec_encode(vw@),
            r matches Err(e) ==> e == Error::Oversized,
    {
        if !str_fits(id.as_str()) || !str_fits(tcp_addr.as_str()) {
            return Err(Error::Oversized);
        }
        let mut out: Vec<u8> = Vec::new();
        out.push(t0);
        out.push(t1);
        out.push(t2);
        out.push(t3);
        out.push(0u8);
        proof {
            assert(out@ =~= tag_of(vw@) + seq![0u8]);
        }
        push_str(&mut out, id.as_str());
        push_str(&mut out, tcp_addr.as_str());
        proof {
            assert(out@ =~= spec_encode(vw@));
        }
        Ok(out)
    }

    fn member_init_fits(mi: &MemberInitializationOperation) -> (r: bool)
        ensures
            r == op_sizes_ok(
                OpView::MemberInit {
                    membership: id_views(mi.membership_list@),
                    udp_to_tcp: pair_views(mi.udp_to_tcp_map@),
                    owners: owner_views(mi.all_file_owners@),
                },
            ),
    {
        let ghost vw = OpView::MemberInit {
            membership: id_views(mi.membership_list@),
            udp_to_tcp: pair_views(mi.udp_to_tcp_map@),
            owners: owner_views(mi.all_file_owners@),
        };
        if mi.membership_list.len() > 4294967295usize || mi.udp_to_tcp_map.len()
            > 4294967295usize || mi.all_file_owners.len() > 4294967295usize {
            return false;
        }
        let n1 = mi.membership_list.len();
        let mut i: usize = 0;
        while i < n1
            invariant
                i <= n1,
                n1 == mi.membership_list@.len(),
                forall|k: int| 0 <= k < i ==> fits_u32(mi.membership_list@[k]@.len()),
            decreases n1 - i,
        {
            if !str_fits(mi.membership_list[i].as_str()) {
                proof {
                    assert(id_views(mi.membership_list@)[i as int]
                        == mi.membership_list@[i as int]@);
                }
                return false;
            }
            i = i + 1;
        }
        let n2 = mi.udp_to_tcp_map.len();
        let mut i2: usize = 0;
        while i2 < n2
            invariant
                i2 <= n2,
                n2 == mi.udp_to_tcp_map@.len(),
                forall|k: int|
                    0 <= k < i2 ==> fits_u32(mi.udp_to_tcp_map@[k].0@.len()) && fits_u32(
                        mi.udp_to_tcp_map@[k].1@.len(),
                    ),
            decreases n2 - i2,
        {
            if !str_fits(mi.udp_to_tcp_map[i2].0.as_str()) || !str_fits(
                mi.udp_to_tcp_map[i2].1.as_str(),
            ) {
                proof {
                    assert(pair_views(mi.udp_to_tcp_map@)[i2 as int] == (
                    mi.udp_to_tcp_map@[i2 as int].0@, mi.udp_to_tcp_map@[i2 as int].1@));
                }
                return false;
            }
            i2 = i2 + 1;
        }
        let n3 = mi.all_file_owners.len();
        let mut i3: usize = 0;
        while i3 < n3
            invariant
                i3 <= n3,
                n3 == mi.all_file_owners@.len(),
                forall|k: int|
                    0 <= k < i3 ==> fits_u32(mi.all_file_owners@[k].0@.len()) && fits_u32(
                        mi.all_file_owners@[k].1@.len(),
                    ) && (forall|j: int|
                        0 <= j < mi.all_file_owners@[k].1@.len() ==> fits_u32(
                            mi.all_file_owners@[k].1@[j]@.len(),
                        )),
            decreases n3 - i3,
        {
            if !str_fits(mi.all_file_owners[i3].0.as_str()) || mi.all_file_owners[i3].1.len()
                > 4294967295usize {
                proof {
                    assert(owner_views(mi.all_file_owners@)[i3 as int] == (
                    mi.all_file_owners@[i3 as int].0@, id_views(
                        mi.all_file_owners@[i3 as int].1@,
                    )));
                }
                return false;
            }
            let inner = &mi.all_file_owners[i3].1;
            let m = inner.len();
            let mut j: usize = 0;
            while j < m
                invariant
                    j <= m,
                    m == inner@.len(),
                    i3 < mi.all_file_owners@.len(),
                    inner@ == mi.all_file_owners@[i3 as int].1@,
                    forall|t: int| 0 <= t < j ==> fits_u32(inner@[t]@.len()),
                decreases m - j,
            {
                if !str_fits(inner[j].as_str()) {
                    proof {
                        assert(owner_views(mi.all_file_owners@)[i3 as int] == (
                        mi.all_file_owners@[i3 as int].0@, id_views(
                            mi.all_file_owners@[i3 as int].1@,
                        )));
                        assert(id_views(inner@)[j as int] == inner@[j as int]@);
                    }
                    return false;
                }
                j = j + 1;
            }
            i3 = i3 + 1;
        }
        proof {
            assert forall|k: int|
                0 <= k < id_views(mi.membership_list@).len() implies fits_u32(
                #[trigger] id_views(mi.membership_list@)[k].len(),
            ) by {
                assert(id_views(mi.membership_list@)[k] == mi.membership_list@[k]@);
            }
            assert forall|k: int|
                0 <= k < pair_views(mi.udp_to_tcp_map@).len() implies fits_u32(
                (#[trigger] pair_views(mi.udp_to_tcp_map@)[k]).0.len(),
            ) && fits_u32(pair_views(mi.udp_to_tcp_map@)[k].1.len()) by {
                assert(pair_views(mi.udp_to_tcp_map@)[k] == (
                mi.udp_to_tcp_map@[k].0@, mi.udp_to_tcp_map@[k].1@));
            }
            assert forall|k: int|
                0 <= k < owner_views(mi.all_file_owners@).len() implies fits_u32(
                (#[trigger] owner_views(mi.all_file_owners@)[k]).0.len(),
            ) && fits_u32(owner_views(mi.all_file_owners@)[k].1.len()) && (forall|j: int|
                0 <= j < owner_views(mi.all_file_owners@)[k].1.len() ==> fits_u32(
                    owner_views(mi.all_file_owners@)[k].1[j].len(),
                )) by {
                assert(owner_views(mi.all_file_owners@)[k] == (
                mi.all_file_owners@[k].0@, id_views(mi.all_file_owners@[k].1@)));
                assert forall|j: int|
                    0 <= j < id_views(mi.all_file_owners@[k].1@).len() implies fits_u32(
                    #[trigger] id_views(mi.all_file_owners@[k].1@)[j].len(),
                ) by {
                    assert(id_views(mi.all_file_owners@[k].1@)[j]
                        == mi.all_file_owners@[k].1@[j]@);
                }
            }
        }
        true
    }
}



fn read_u32(b: &Vec<u8>, pos: usize) -> (r: Option<(u32, usize)>)
    requires
        pos <= b@.len(),
    ensures
        match r {
            Some(p) => dec_u32(b@.skip(pos as int)) == Some((p.0 as int, b@.skip(p.1 as int)))
                && pos < p.1 <= b@.len() && p.1 == pos + 4,
            None => dec_u32(b@.skip(pos as int)) is None,
        },
{
    if b.len() - pos < 4 {
        return None;
    }
    let n: u32 = (b[pos] as u32) + 256u32 * (b[pos + 1] as u32) + 65536u32 * (b[pos + 2] as u32)
        + 16777216u32 * (b[pos + 3] as u32);
    proof {
        let s = b@.skip(pos as int);
        assert(s[0] == b@[pos as int]);
        assert(s[1] == b@[pos as int + 1]);
        assert(s[2] == b@[pos as int + 2]);
        assert(s[3] == b@[pos as int + 3]);
        assert(n as int == dec_u32_at(s));
        assert(s.skip(4) =~= b@.skip(pos as int + 4));
    }
    Some((n, pos + 4))
}

fn read_chars(b: &Vec<u8>, pos: usize, n: u32) -> (r: Option<(String, usize)>)
    requires
        pos <= b@.len(),
    ensures
        match r {
            Some(p) => dec_chars(b@.skip(pos as int), n as nat) == Some(
                (p.0@, b@.skip(p.1 as int)),
            ) && pos <= p.1 <= b@.len(),
            None => dec_chars(b@.skip(pos as int), n as nat) is None,
        },
{
    let mut acc = String::new();
    let mut cur: usize = pos;
    let mut i: u32 = 0;
    while i < n
        invariant
            i <= n,
            pos <= cur <= b@.len(),
            dec_chars(b@.skip(pos as int), n as nat) == (match dec_chars(
                b@.skip(cur as int),
                (n - i) as nat,
            ) {
                Option::None => Option::<(Seq<char>, Seq<u8>)>::None,
                Option::Some(p) => Option::Some((acc@ + p.0, p.1)),
            }),
        decreases n - i,
    {
        let (u, cur2) = match read_u32(b, cur) {
            Some(p) => p,
            None => {
                return None;
            },
        };
        let c = match char_from_u32(u) {
            Some(c) => c,
            None => {
                return None;
            },
        };
        let ghost acc0 = acc@;
        push_char(&mut acc, c);
        proof {
            assert((u as u32) as char == c) by {
                vstd::utf8::char_u32_cast(c, u);
            }
            match dec_chars(b@.skip(cur2 as int), (n - i - 1) as nat) {
                Option::None => {},
                Option::Some(p) => {
                    assert(dec_chars(b@.skip(cur as int), (n - i) as nat) == Some(
                        (seq![c] + p.0, p.1),
                    ));
                    assert(acc0 + (seq![c] + p.0) =~= acc@ + p.0);
                },
            }
        }
        cur = cur2;
        i = i + 1;
    }
    proof {
        assert(dec_chars(b@.skip(cur as int), 0) == Some(
            (Seq::<char>::empty(), b@.skip(cur as int)),
        ));
        assert(acc@ + Seq::<char>::empty() =~= acc@);
    }
    Some((acc, cur))
}

fn read_str(b: &Vec<u8>, pos: usize) -> (r: Option<(String, usize)>)
    requires
        pos <= b@.len(),
    ensures
        match r {
            Some(p) => dec_str(b@.skip(pos as int)) == Some((p.0@, b@.skip(p.1 as int))) && pos
                <= p.1 <= b@.len(),
            None => dec_str(b@.skip(pos as int)) is None,
        },
{
    let (n, pos2) = match read_u32(b, pos) {
        Some(p) => p,
        None => {
            return None;
        },
    };
    read_chars(b, pos2, n)
}

fn read_str_vec(b: &Vec<u8>, pos: usize) -> (r: Option<(Vec<String>, usize)>)
    requires
        pos <= b@.len(),
    ensures
        match r {
            Some(p) => dec_str_list(b@.skip(pos as int)) == Some(
                (id_views(p.0@), b@.skip(p.1 as int)),
            ) && pos <= p.1 <= b@.len(),
            None => dec_str_list(b@.skip(pos as int)) is None,
        },
{
    let (n, pos2) = match read_u32(b, pos) {
        Some(p) => p,
        None => {
            return None;
        },
    };
    let mut acc: Vec<String> = Vec::new();
    let mut cur: usize = pos2;
    let mut i: u32 = 0;
    while i < n
        invariant
            i <= n,
            pos2 <= cur <= b@.len(),
            pos <= pos2 <= b@.len(),
            dec_u32(b@.skip(pos as int)) == Some((n as int, b@.skip(pos2 as int))),
            dec_strs(b@.skip(pos2 as int), n as nat) == (match dec_strs(
                b@.skip(cur as int),
                (n - i) as nat,
            ) {
                Option::None => Option::<(Seq<Seq<char>>, Seq<u8>)>::None,
                Option::Some(p) => Option::Some((id_views(acc@) + p.0, p.1)),
            }),
        decreases n - i,
    {
        let (s, cur2) = match read_str(b, cur) {
            Some(p) => p,
            None => {
                return None;
            },
        };
        let ghost acc0 = acc@;
        acc.push(s);
        proof {
            assert(id_views(acc@) =~= id_views(acc0).push(acc@[acc0.len() as int]@));
            match dec_strs(b@.skip(cur2 as int), (n - i - 1) as nat) {
                Option::None => {},
                Option::Some(p) => {
                    assert(id_views(acc0) + (seq![acc@[acc0.len() as int]@] + p.0) =~= id_views(
                        acc@,
                    ) + p.0);
                },
            }
        }
        cur = cur2;
        i = i + 1;
    }
    proof {
        assert(dec_strs(b@.skip(cur as int), 0) == Some(
            (Seq::<Seq<char>>::empty(), b@.skip(cur as int)),
        ));
        assert(id_views(acc@) + Seq::<Seq<char>>::empty() =~= id_views(acc@));
    }
    Some((acc, cur))
}

fn read_pair_vec(b: &Vec<u8>, pos: usize) -> (r: Option<(Vec<(String, String)>, usize)>)
    requires
        pos <= b@.len(),
    ensures
        match r {
            Some(p) => dec_pair_list(b@.skip(pos as int)) == Some(
                (pair_views(p.0@), b@.skip(p.1 as int)),
            ) && pos <= p.1 <= b@.len(),
            None => dec_pair_list(b@.skip(pos as int)) is None,
        },
{
    let (n, pos2) = match read_u32(b, pos) {
        Some(p) => p,
        None => {
            return None;
        },
    };
    let mut acc: Vec<(String, String)> = Vec::new();
    let mut cur: usize = pos2;
    let mut i: u32 = 0;
    while i < n
        invariant
            i <= n,
            pos2 <= cur <= b@.len(),
            pos <= pos2 <= b@.len(),
            dec_u32(b@.skip(pos as int)) == Some((n as int, b@.skip(pos2 as int))),
            dec_pairs(b@.skip(pos2 as int), n as nat) == (match dec_pairs(
                b@.skip(cur as int),
                (n - i) as nat,
            ) {
                Option::None => Option::<(Seq<(Seq<char>, Seq<char>)>, Seq<u8>)>::None,
                Option::Some(p) => Option::Some((pair_views(acc@) + p.0, p.1)),
            }),
        decreases n - i,
    {
        let (k, cur2) = match read_str(b, cur) {
            Some(p) => p,
            None => {
                return None;
            },
        };
        let (w, cur3) = match read_str(b, cur2) {
            Some(p) => p,
            None => {
                return None;
            },
        };
        let ghost acc0 = acc@;
        let ghost kv = k@;
        let ghost wv = w@;
        acc.push((k, w));
        proof {
            assert(pair_views(acc@) =~= pair_views(acc0).push((kv, wv)));
            match dec_pairs(b@.skip(cur3 as int), (n - i - 1) as nat) {
                Option::None => {},
                Option::Some(p) => {
                    assert(pair_views(acc0) + (seq![(kv, wv)] + p.0) =~= pair_views(acc@) + p.0);
                },
            }
        }
        cur = cur3;
        i = i + 1;
    }
    proof {
        assert(dec_pairs(b@.skip(cur as int), 0) == Some(
            (Seq::<(Seq<char>, Seq<char>)>::empty(), b@.skip(cur as int)),
        ));
        assert(pair_views(acc@) + Seq::<(Seq<char>, Seq<char>)>::empty() =~= pair_views(acc@));
    }
    Some((acc, cur))
}

fn read_owner_vec(b: &Vec<u8>, pos: usize) -> (r: Option<(Vec<(String, Vec<String>)>, usize)>)
    requires
        pos <= b@.len(),
    ensures
        match r {
            Some(p) => dec_owner_list(b@.skip(pos as int)) == Some(
                (owner_views(p.0@), b@.skip(p.1 as int)),
            ) && pos <= p.1 <= b@.len(),
            None => dec_owner_list(b@.skip(pos as int)) is None,
        },
{
    let (n, pos2) = match read_u32(b, pos) {
        Some(p) => p,
        None => {
            return None;
        },
    };
    let mut acc: Vec<(String, Vec<String>)> = Vec::new();
    let mut cur: usize = pos2;
    let mut i: u32 = 0;
    while i < n
        invariant
            i <= n,
            pos2 <= cur <= b@.len(),
            pos <= pos2 <= b@.len(),
            dec_u32(b@.skip(pos as int)) == Some((n as int, b@.skip(pos2 as int))),
            dec_owners(b@.skip(pos2 as int), n as nat) == (match dec_owners(
                b@.skip(cur as int),
                (n - i) as nat,
            ) {
                Option::None => Option::<(Seq<(Seq<char>, Seq<Seq<char>>)>, Seq<u8>)>::None,
                Option::Some(p) => Option::Some((owner_views(acc@) + p.0, p.1)),
            }),
        decreases n - i,
    {
        let (k, cur2) = match read_str(b, cur) {
            Some(p) => p,
            None => {
                return None;
            },
        };
        let (w, cur3) = match read_str_vec(b, cur2) {
            Some(p) => p,
            None => {
                return None;
            },
        };
        let ghost acc0 = acc@;
        let ghost kv = k@;
        let ghost wv = id_views(w@);
        acc.push((k, w));
        proof {
            assert(owner_views(acc@) =~= owner_views(acc0).push((kv, wv)));
            match dec_owners(b@.skip(cur3 as int), (n - i - 1) as nat) {
                Option::None => {},
                Option::Some(p) => {
                    assert(owner_views(acc0) + (seq![(kv, wv)] + p.0) =~= owner_views(acc@)
                        + p.0);
                },
            }
        }
        cur = cur3;
        i = i + 1;
    }
    proof {
        assert(dec_owners(b@.skip(cur as int), 0) == Some(
            (Seq::<(Seq<char>, Seq<Seq<char>>)>::empty(), b@.skip(cur as int)),
        ));
        assert(owner_views(acc@) + Seq::<(Seq<char>, Seq<Seq<char>>)>::empty() =~= owner_views(
            acc@,
        ));
    }
    Some((acc, cur))
}

impl Operation {
    /// Decodes one framed wire message; malformed input, an unknown
    /// tag, or trailing bytes yield `None`.
    pub fn from_bytes(b: &Vec<u8>) -> (r: Option<Operation>)
        ensures
            match r {
                Some(op) => spec_decode(b@) == Some(op@),
                None => spec_decode(b@) is None,
            },
    {
        if b.len() < 5 {
            return None;
        }
        if b[4] != 0u8 {
            return None;
        }
        let t0 = b[0];
        let t1 = b[1];
        let t2 = b[2];
        let t3 = b[3];
        proof {
            assert(b@.take(4) =~= seq![b@[0], b@[1], b@[2], b@[3]]);
        }
        if t0 == 72u8 && t1 == 66u8 && t2 == 32u8 && t3 == 32u8 {
            proof {
                assert(b@.take(4) =~= seq![72u8, 66u8, 32u8, 32u8]);
            }
            match read_str(b, 5) {
                Some((id, pos)) => {
                    if pos == b.len() {
                        proof {
                            assert(b@.skip(pos as int).len() == 0);
                        }
                        Some(Operation::Heartbeat(HeartbeatOperation { id }))
                    } else {
                        proof {
                            assert(b@.skip(pos as int).len() != 0);
                        }
                        None
                    }
                },
                None => None,
            }
        } else if t0 == 74u8 && t1 == 79u8 && t2 == 73u8 && t3 == 78u8 {
            proof {
                assert(b@.take(4) =~= seq![74u8, 79u8, 73u8, 78u8]);
                assert(!(b@.take(4) =~= seq![72u8, 66u8, 32u8, 32u8]));
            }
            match read_str(b, 5) {
                Some((id, pos)) => match read_str(b, pos) {
                    Some((tcp_addr, pos2)) => {
                        if pos2 == b.len() {
                            proof {
                                assert(b@.skip(pos2 as int).len() == 0);
                            }
                            Some(Operation::Join(JoinOperation { id, tcp_addr }))
                        } else {
                            proof {
                                assert(b@.skip(pos2 as int).len() != 0);
                            }
                            None
                        }
                    },
                    None => None,
                },
                None => None,
            }
        } else if t0 == 76u8 && t1 == 69u8 && t2 == 65u8 && t3 == 86u8 {
            proof {
                assert(b@.take(4) =~= seq![76u8, 69u8, 65u8, 86u8]);
            }
            match read_str(b, 5) {
                Some((id, pos)) => {
                    if pos == b.len() {
                        proof {
                            assert(b@.skip(pos as int).len() == 0);
                        }
                        Some(Operation::Leave(LeaveOperation { id }))
                    } else {
                        proof {
                            assert(b@.skip(pos as int).len() != 0);
                        }
                        None
                    }
                },
                None => None,
            }
        } else if t0 == 78u8 && t1 == 77u8 && t2 == 69u8 && t3 == 77u8 {
            proof {
                assert(b@.take(4) =~= seq![78u8, 77u8, 69u8, 77u8]);
            }
            match read_str(b, 5) {
                Some((id, pos)) => match read_str(b, pos) {
                    Some((tcp_addr, pos2)) => {
                        if pos2 == b.len() {
                            proof {
                                assert(b@.skip(pos2 as int).len() == 0);
                            }
                            Some(Operation::NewMember(NewMemberOperation { id, tcp_addr }))
                        } else {
                            proof {
                                assert(b@.skip(pos2 as int).len() != 0);
                            }
                            None
                        }
                    },
                    None => None,
                },
                None => None,
            }
        } else if t0 == 77u8 && t1 == 76u8 && t2 == 73u8 && t3 == 83u8 {
            proof {
                assert(b@.take(4) =~= seq![77u8, 76u8, 73u8, 83u8]);
            }
            match read_str_vec(b, 5) {
                Some((membership_list, pos)) => match read_pair_vec(b, pos) {
                    Some((udp_to_tcp_map, pos2)) => match read_owner_vec(b, pos2) {
                        Some((all_file_owners, pos3)) => {
                            if pos3 == b.len() {
                                proof {
                                    assert(b@.skip(pos3 as int).len() == 0);
                                }
                                Some(
                                    Operation::MemberInit(
                                        MemberInitializationOperation {
                                            membership_list,
                                            udp_to_tcp_map,
                                            all_file_owners,
                                        },
                                    ),
                                )
                            } else {
                                proof {
                                    assert(b@.skip(pos3 as int).len() != 0);
                                }
                                None
                            }
                        },
                        None => None,
                    },
                    None => None,
                },
                None => None,
            }
        } else {
            proof {
                assert(!(b@.take(4) =~= seq![72u8, 66u8, 32u8, 32u8]));
                assert(!(b@.take(4) =~= seq![74u8, 79u8, 73u8, 78u8]));
                assert(!(b@.take(4) =~= seq![76u8, 69u8, 65u8, 86u8]));
                assert(!(b@.take(4) =~= seq![78u8, 77u8, 69u8, 77u8]));
                assert(!(b@.take(4) =~= seq![77u8, 76u8, 73u8, 83u8]));
            }
            None
        }
    }
}



impl HeartbeatOperation {
    /// The framed wire image of this heartbeat.
    pub fn to_bytes(&self) -> (r: Result<Vec<u8>, Error>)
        ensures
            r is Ok <==> fits_u32(self.id@.len()),
            r matches Ok(v) ==> v@ == spec_encode(OpView::Heartbeat { id: self.id@ }),
            r matches Err(e) ==> e == Error::Oversized,
    {
        Operation::one_string_bytes(
            72u8,
            66u8,
            32u8,
            32u8,
            &self.id,
            Ghost(OpView::Heartbeat { id: self.id@ }),
        )
    }
}

impl JoinOperation {
    /// The framed wire image of this join request.
    pub fn to_bytes(&self) -> (r: Result<Vec<u8>, Error>)
        ensures
            r is Ok <==> (fits_u32(self.id@.len()) && fits_u32(self.tcp_addr@.len())),
            r matches Ok(v) ==> v@ == spec_encode(
                OpView::Join { id: self.id@, tcp_addr: self.tcp_addr@ },
            ),
            r matches Err(e) ==> e == Error::Oversized,
    {
        Operation::two_string_bytes(
            74u8,
            79u8,
            73u8,
            78u8,
            &self.id,
            &self.tcp_addr,
            Ghost(OpView::Join { id: self.id@, tcp_addr: self.tcp_addr@ }),
        )
    }
}

impl LeaveOperation {
    /// The framed wire image of this leave notice.
    pub fn to_bytes(&self) -> (r: Result<Vec<u8>, Error>)
        ensures
            r is Ok <==> fits_u32(self.id@.len()),
            r matches Ok(v) ==> v@ == spec_encode(OpView::Leave { id: self.id@ }),
            r matches Err(e) ==> e == Error::Oversized,
    {
        Operation::one_string_bytes(
            76u8,
            69u8,
            65u8,
            86u8,
            &self.id,
            Ghost(OpView::Leave { id: self.id@ }),
        )
    }
}

impl NewMemberOperation {
    /// The framed wire image of this membership announcement.
    pub fn to_bytes(&self) -> (r: Result<Vec<u8>, Error>)
        ensures
            r is Ok <==> (fits_u32(self.id@.len()) && fits_u32(self.tcp_addr@.len())),
            r matches Ok(v) ==> v@ == spec_encode(
                OpView::NewMember { id: self.id@, tcp_addr: self.tcp_addr@ },
            ),
            r matches Err(e) ==> e == Error::Oversized,
    {
        Operation::two_string_bytes(
            78u8,
            77u8,
            69u8,
            77u8,
            &self.id,
            &self.tcp_addr,
            Ghost(OpView::NewMember { id: self.id@, tcp_addr: self.tcp_addr@ }),
        )
    }
}

impl MemberInitializationOperation {
    /// The framed wire image of this state snapshot.
    pub fn to_bytes(&self) -> (r: Result<Vec<u8>, Error>)
        ensures
            r is Ok <==> op_sizes_ok(
                OpView::MemberInit {
                    membership: id_views(self.membership_list@),
                    udp_to_tcp: pair_views(self.udp_to_tcp_map@),
                    owners: owner_views(self.all_file_owners@),
                },
            ),
            r matches Ok(v) ==> v@ == spec_encode(
                OpView::MemberInit {
                    membership: id_views(self.membership_list@),
                    udp_to_tcp: pair_views(self.udp_to_tcp_map@),
                    owners: owner_views(self.all_file_owners@),
                },
            ),
            r matches Err(e) ==> e == Error::Oversized,
    {
        if !Operation::member_init_fits(self) {
            return Err(Error::Oversized);
        }
        proof {
            assert forall|k: int|
                0 <= k < self.membership_list@.len() implies fits_u32(
                self.membership_list@[k]@.len(),
            ) by {
                assert(id_views(self.membership_list@)[k] == self.membership_list@[k]@);
            }
            assert forall|k: int|
                0 <= k < self.udp_to_tcp_map@.len() implies fits_u32(
                self.udp_to_tcp_map@[k].0@.len(),
            ) && fits_u32(self.udp_to_tcp_map@[k].1@.len()) by {
                assert(pair_views(self.udp_to_tcp_map@)[k] == (
                self.udp_to_tcp_map@[k].0@, self.udp_to_tcp_map@[k].1@));
            }
            assert forall|k: int|
                0 <= k < self.all_file_owners@.len() implies fits_u32(
                self.all_file_owners@[k].0@.len(),
            ) && fits_u32(self.all_file_owners@[k].1@.len()) && (forall|j: int|
                0 <= j < self.all_file_owners@[k].1@.len() ==> fits_u32(
                    self.all_file_owners@[k].1@[j]@.len(),
                )) by {
                assert(owner_views(self.all_file_owners@)[k] == (
                self.all_file_owners@[k].0@, id_views(self.all_file_owners@[k].1@)));
                assert forall|j: int|
                    0 <= j < self.all_file_owners@[k].1@.len() implies fits_u32(
                    self.all_file_owners@[k].1@[j]@.len(),
                ) by {
                    assert(id_views(self.all_file_owners@[k].1@)[j]
                        == self.all_file_owners@[k].1@[j]@);
                }
            }
        }
        let ghost vw = OpView::MemberInit {
            membership: id_views(self.membership_list@),
            udp_to_tcp: pair_views(self.udp_to_tcp_map@),
            owners: owner_views(self.all_file_owners@),
        };
        let mut out: Vec<u8> = Vec::new();
        out.push(77u8);
        out.push(76u8);
        out.push(73u8);
        out.push(83u8);
        out.push(0u8);
        proof {
            assert(out@ =~= tag_of(vw) + seq![0u8]);
        }
        push_str_vec(&mut out, &self.membership_list);
        push_pair_vec(&mut out, &self.udp_to_tcp_map);
        push_owner_vec(&mut out, &self.all_file_owners);
        proof {
            assert(out@ =~= spec_encode(vw));
        }
        Ok(out)
    }
}


} // verus!
