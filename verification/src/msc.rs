//! Multi-slot consensus helpers: the per-slot ranking update and the
//! resolution of empty-low accusations.
use std::collections::BTreeSet;

use vstd::bytes::spec_u64_to_le_bytes;
use vstd::prelude::*;
use vstd::string::StringSliceAdditionalSpecFns;

use crate::hashing::{blake3_digest, blake3_hash, digest_is_zero, is_zero_digest};
use crate::types::{PcValueElement, PcVector, Slot, SpcView, ValidatorId};

verus! {

/// The set of validators the ranking update demotes: every accused
/// validator, plus the validator at position `high_len` when the prior
/// high output is shorter than the ranking.
pub open spec fn demoted_set(rank: Seq<ValidatorId>, high_len: int, accused: Set<ValidatorId>) -> Set<ValidatorId> {
    if high_len < rank.len() {
        accused.insert(rank[high_len])
    } else {
        accused
    }
}

/// Predicate "not in `d`".
pub open spec fn not_in(d: Set<ValidatorId>) -> spec_fn(ValidatorId) -> bool {
    |p: ValidatorId| !d.contains(p)
}

/// Predicate "in `d`".
pub open spec fn is_in(d: Set<ValidatorId>) -> spec_fn(ValidatorId) -> bool {
    |p: ValidatorId| d.contains(p)
}

/// Whether the update refuses to demote: no member of the ranking is
/// demoted, or every member would be (ids outside the ranking count for
/// nothing).
pub open spec fn refuses_update(rank: Seq<ValidatorId>, high_len: int, accused: Set<ValidatorId>) -> bool {
    let d = demoted_set(rank, high_len, accused);
    rank.filter(is_in(d)).len() == 0 || rank.filter(not_in(d)).len() == 0
}

/// The next slot's ranking: kept validators in their prior order, then
/// demoted validators in their prior order; the prior ranking itself when
/// the update refuses.
pub open spec fn next_rank(rank: Seq<ValidatorId>, high_len: int, accused: Set<ValidatorId>) -> Seq<ValidatorId> {
    let d = demoted_set(rank, high_len, accused);
    if refuses_update(rank, high_len, accused) {
        rank
    } else {
        rank.filter(not_in(d)) + rank.filter(is_in(d))
    }
}

/// Compute the next slot's ranking from the prior slot's ranking, its high
/// output and the set of accused validators.
///
/// Accused validators move to the end of the ranking; if the high output is
/// shorter than the ranking, the validator at position `prev_high.len()` is
/// demoted too. Kept and demoted validators each keep their relative order.
/// When no member of the ranking is demoted, or every member would be, the
/// prior ranking is returned unchanged; accused ids outside the ranking count
/// for nothing.
pub fn update_rank(
    prev_rank: &[ValidatorId],
    prev_high: &PcVector,
    accused: &BTreeSet<ValidatorId>,
) -> (next: Vec<ValidatorId>)
    ensures
        next@ == next_rank(prev_rank@, prev_high.elements@.len() as int, accused@),
{
    let n = prev_rank.len();
    let l = prev_high.len();

    let mut demoted = accused.clone();
    if l < n {
        demoted.insert(prev_rank[l]);
    }
    let ghost d = demoted@;
    assert(d == demoted_set(prev_rank@, l as int, accused@));

    let mut kept: Vec<ValidatorId> = Vec::new();
    let mut tail: Vec<ValidatorId> = Vec::new();
    let mut i: usize = 0;
    while i < n
        invariant
            n == prev_rank@.len(),
            i <= n,
            demoted@ == d,
            kept@ == prev_rank@.take(i as int).filter(not_in(d)),
            tail@ == prev_rank@.take(i as int).filter(is_in(d)),
        decreases n - i,
    {
        let p = prev_rank[i];
        proof {
            assert(prev_rank@.take(i + 1) == prev_rank@.take(i as int).push(p));
            prev_rank@.take(i as int).lemma_filter_push(p, not_in(d));
            prev_rank@.take(i as int).lemma_filter_push(p, is_in(d));
        }
        if demoted.contains(&p) {
            tail.push(p);
        } else {
            kept.push(p);
        }
        i = i + 1;
    }
    assert(prev_rank@.take(n as int) == prev_rank@);
    if kept.len() == 0 || tail.len() == 0 {
        return vstd::slice::slice_to_vec(prev_rank);
    }
    kept.append(&mut tail);
    kept
}

/// Splitting any sequence into the part outside `d` and the part inside
/// `d` keeps every element with its multiplicity.
proof fn lemma_partition_to_multiset(s: Seq<ValidatorId>, d: Set<ValidatorId>)
    ensures
        (s.filter(not_in(d)) + s.filter(is_in(d))).to_multiset() == s.to_multiset(),
    decreases s.len(),
{
    broadcast use vstd::seq_lib::group_to_multiset_ensures;
    if s.len() == 0 {
        assert(s.filter(not_in(d)) =~= Seq::<ValidatorId>::empty());
        assert(s.filter(is_in(d)) =~= Seq::<ValidatorId>::empty());
        assert(s.filter(not_in(d)) + s.filter(is_in(d)) =~= Seq::<ValidatorId>::empty());
    } else {
        let init = s.drop_last();
        let x = s.last();
        assert(s == init.push(x));
        lemma_partition_to_multiset(init, d);
        init.lemma_filter_push(x, not_in(d));
        init.lemma_filter_push(x, is_in(d));
        let a = init.filter(not_in(d));
        let b = init.filter(is_in(d));
        vstd::seq_lib::lemma_multiset_commutative(a, b);
        if d.contains(x) {
            assert(a + b.push(x) == (a + b).push(x));
        } else {
            vstd::seq_lib::lemma_multiset_commutative(a.push(x), b);
            vstd::seq_lib::lemma_multiset_commutative(a, b);
            assert(b + a.push(x) == (b + a).push(x));
        }
    }
}

/// The ranking update only reorders: the next ranking holds exactly the
/// validators of the prior ranking, each as often as before.
pub proof fn lemma_next_rank_is_permutation(rank: Seq<ValidatorId>, high_len: int, accused: Set<ValidatorId>)
    ensures
        next_rank(rank, high_len, accused).to_multiset() == rank.to_multiset(),
        next_rank(rank, high_len, accused).len() == rank.len(),
{
    let d = demoted_set(rank, high_len, accused);
    if !refuses_update(rank, high_len, accused) {
        lemma_partition_to_multiset(rank, d);
    }
    vstd::seq_lib::to_multiset_len(rank);
    vstd::seq_lib::to_multiset_len(next_rank(rank, high_len, accused));
}

/// When the update applies, every kept validator precedes every demoted
/// one, and the head of the next ranking is never demoted, so the next slot
/// always has a head for its rotation.
pub proof fn lemma_next_rank_kept_before_demoted(rank: Seq<ValidatorId>, high_len: int, accused: Set<ValidatorId>)
    requires
        !refuses_update(rank, high_len, accused),
    ensures
        forall|i: int, j: int|
            0 <= i < j < rank.len() && demoted_set(rank, high_len, accused).contains(
                #[trigger] next_rank(rank, high_len, accused)[i],
            ) ==> demoted_set(rank, high_len, accused).contains(
                #[trigger] next_rank(rank, high_len, accused)[j],
            ),
        !demoted_set(rank, high_len, accused).contains(next_rank(rank, high_len, accused)[0]),
{
    let d = demoted_set(rank, high_len, accused);
    let kept = rank.filter(not_in(d));
    let tail = rank.filter(is_in(d));
    let next = kept + tail;
    lemma_next_rank_is_permutation(rank, high_len, accused);
    assert forall|i: int| 0 <= i < kept.len() implies !d.contains(#[trigger] next[i]) by {
        rank.lemma_filter_pred(not_in(d), i);
    }
    assert forall|i: int| kept.len() <= i < next.len() implies d.contains(#[trigger] next[i]) by {
        rank.lemma_filter_pred(is_in(d), i - kept.len());
    }
    assert(next[0] == kept[0]);
}

/// The cyclic shift of the slot's initial ranking under which the leader
/// accused by an empty low at `view` ran: `(view - 2) mod n` for views past
/// the first two, and no shift otherwise.
pub open spec fn rank_shift_spec(view: SpcView, n: nat) -> nat {
    if view >= 2 {
        ((view - 2) as nat) % n
    } else {
        0
    }
}

/// Ranking shift for an accused view in an `n`-party committee.
pub fn rank_shift_for_view(view: SpcView, n: usize) -> (shift: usize)
    requires
        n > 0,
    ensures
        shift == rank_shift_spec(view, n as nat),
        shift < n,
{
    if view >= 2 {
        ((view - 2) % (n as u64)) as usize
    } else {
        0
    }
}

/// An empty-low accusation raised inside one slot's prefix-consensus run.
pub struct MscEmptyLowAccusation {
    /// The slot whose consensus run produced the evidence.
    pub slot: Slot,
    /// The view at which the empty low was certified.
    pub view: SpcView,
    /// The encoded certificate proving the empty low.
    pub proof: Vec<u8>,
}

/// Verify an empty-low accusation, given the verdict of its certificate:
/// `certificate_verifies` is whether the embedded certificate verifies
/// under the prefix-consensus context of `accusation.slot` (so evidence from
/// another slot's run does not verify here) and certifies an empty low at
/// `accusation.view`. Accepted exactly when the view is past the first
/// (`> 1`) and the certificate verifies.
pub fn verify_empty_low_accusation(accusation: &MscEmptyLowAccusation, certificate_verifies: bool) -> (ok: bool)
    ensures
        ok == (accusation.view > 1 && certificate_verifies),
{
    accusation.view > 1 && certificate_verifies
}

/// The validator an accusation demotes: the party at position
/// `rank_shift_for_view(view, n)` of the slot's initial ranking; `None`
/// only when the ranking is empty.
pub fn accusation_demotes(
    accusation: &MscEmptyLowAccusation,
    slot_initial_rank: &[ValidatorId],
) -> (demoted: Option<ValidatorId>)
    ensures
        slot_initial_rank@.len() == 0 ==> demoted is None,
        slot_initial_rank@.len() > 0 ==> demoted == Some(
            slot_initial_rank@[rank_shift_spec(accusation.view, slot_initial_rank@.len()) as int],
        ),
{
    if slot_initial_rank.len() == 0 {
        return None;
    }
    let shifts = rank_shift_for_view(accusation.view, slot_initial_rank.len());
    Some(slot_initial_rank[shifts])
}

/// Domain tag of the canonical encoding of a slot proposal.
pub const SLOT_PROPOSAL_DOMAIN: &'static str = "hyperscale-msc-slot-proposal-v1";

/// Domain tag of the rehash that moves a digest off the all-zero sentinel.
pub const SLOT_PROPOSAL_BOTTOM_DOMAIN: &'static str = "hyperscale-msc-slot-proposal-bottom-collision-v1";

/// Largest vector the SBOR encoder accepts: its length prefix holds at most
/// four LEB128 bytes.
pub const SBOR_MAX_SIZE: usize = 0x0FFF_FFFFusize;

/// The LEB128 bytes of `n`: seven bits at a time, low bits first, with the
/// high bit set on every byte but the last.
pub open spec fn leb128(n: nat) -> Seq<u8>
    decreases n,
{
    if n < 128 {
        seq![n as u8]
    } else {
        seq![((n % 128) + 128) as u8] + leb128(n / 128)
    }
}

/// The SBOR bodies of 32-byte arrays in order: each is the u8 element kind
/// (0x07), the length 32 (0x20) and the 32 bytes.
pub open spec fn sbor_element_bodies(es: Seq<PcValueElement>) -> Seq<u8>
    decreases es.len(),
{
    if es.len() == 0 {
        Seq::empty()
    } else {
        sbor_element_bodies(es.drop_last()) + seq![0x07u8, 0x20u8] + es.last()@
    }
}

/// The basic SBOR payload of a vector of 32-byte elements: the basic
/// payload prefix (0x5b), the array kind (0x20) of the vector, the array
/// kind (0x20) of its elements, the element count in LEB128, then each
/// element's body.
pub open spec fn sbor_basic_encoding(elements: Seq<PcValueElement>) -> Seq<u8> {
    seq![0x5bu8, 0x20u8, 0x20u8] + leb128(elements.len()) + sbor_element_bodies(elements)
}

/// Calls `sbor::basic_encode` on the elements. The encoder refuses only a
/// collection longer than [`SBOR_MAX_SIZE`], whose length prefix would not
/// fit its four LEB128 bytes (the nesting, two levels, is well within the
/// depth limit); otherwise the result is the basic SBOR payload that
/// [`sbor_basic_encoding`] spells out.
#[verifier::external_body]
fn sbor_encode_elements(elements: &Vec<PcValueElement>) -> (bytes: Option<Vec<u8>>)
    ensures
        bytes is Some <==> elements@.len() <= SBOR_MAX_SIZE,
        bytes matches Some(b) ==> b@ == sbor_basic_encoding(elements@),
{
    match sbor::basic_encode(elements) {
        Ok(b) => Some(b),
        Err(_) => None,
    }
}

/// A slot's proposal payload: the proposer's prefix-consensus vector.
pub struct MscSlotProposal {
    pub slot: Slot,
    pub content: PcVector,
}

/// Canonical bytes of a slot proposal:
/// `domain || slot (8 LE) || content (SBOR)`.
pub open spec fn slot_proposal_message_spec(slot: Slot, content: Seq<PcValueElement>) -> Seq<u8> {
    SLOT_PROPOSAL_DOMAIN.spec_bytes() + spec_u64_to_le_bytes(slot) + sbor_basic_encoding(content)
}

/// The digest a slot proposal hashes to: its BLAKE3 digest, rehashed under
/// the bottom-collision domain when that digest is all zero.
pub open spec fn proposal_digest(slot: Slot, content: Seq<PcValueElement>) -> Seq<u8> {
    let h = blake3_digest(slot_proposal_message_spec(slot, content));
    if is_zero_digest(h) {
        blake3_digest(SLOT_PROPOSAL_BOTTOM_DOMAIN.spec_bytes() + h)
    } else {
        h
    }
}

/// Canonical bytes of `p`, the preimage of [`hash_proposal_msc`].
fn slot_proposal_message(p: &MscSlotProposal) -> (msg: Vec<u8>)
    requires
        p.content.elements@.len() <= SBOR_MAX_SIZE,
    ensures
        msg@ == slot_proposal_message_spec(p.slot, p.content.elements@),
{
    let mut buf = vstd::slice::slice_to_vec(SLOT_PROPOSAL_DOMAIN.as_bytes());
    let mut slot_bytes = vstd::bytes::u64_to_le_bytes(p.slot);
    buf.append(&mut slot_bytes);
    let mut content_bytes = match sbor_encode_elements(&p.content.elements) {
        Some(b) => b,
        None => Vec::new(),
    };
    buf.append(&mut content_bytes);
    buf
}

/// Hash a slot proposal into an element of the slot's consensus input:
/// the BLAKE3 digest of its canonical bytes, moved off the all-zero
/// "no proposal" sentinel by a domain-tagged rehash if it lands there.
pub fn hash_proposal_msc(p: &MscSlotProposal) -> (h: PcValueElement)
    requires
        p.content.elements@.len() <= SBOR_MAX_SIZE,
    ensures
        h@ == proposal_digest(p.slot, p.content.elements@),
{
    let bytes = slot_proposal_message(p);
    let raw = blake3_hash(bytes.as_slice());
    if digest_is_zero(&raw) {
        let mut msg = vstd::slice::slice_to_vec(SLOT_PROPOSAL_BOTTOM_DOMAIN.as_bytes());
        let mut raw_bytes = vstd::slice::slice_to_vec(raw.as_slice());
        msg.append(&mut raw_bytes);
        return blake3_hash(msg.as_slice());
    }
    raw
}

} // verus!
