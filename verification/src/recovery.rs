//! Structural checks of beacon recovery evidence: which recovery
//! certificates and recovery equivocations are well-formed enough for their
//! aggregate signatures to be checked, and against which signers.
use vstd::prelude::*;

use crate::types::{hash_eq, BeaconBlockHash, Epoch, ValidatorId};

verus! {

/// Positional signer set over an ordered validator enumeration.
pub struct SignerBitfield {
    pub bits: Vec<bool>,
}

/// The positions set in `bits`, in increasing order.
pub open spec fn set_indices_of(bits: Seq<bool>) -> Seq<usize>
    decreases bits.len(),
{
    if bits.len() == 0 {
        Seq::empty()
    } else {
        let rest = set_indices_of(bits.drop_last());
        if bits.last() {
            rest.push((bits.len() - 1) as usize)
        } else {
            rest
        }
    }
}

/// Number of set positions in `bits`.
pub open spec fn count_ones_of(bits: Seq<bool>) -> nat {
    set_indices_of(bits).len()
}

impl SignerBitfield {
    /// A bitfield over `n` validators with no bit set.
    pub fn new(n: usize) -> (b: SignerBitfield)
        ensures
            b.bits@ == Seq::new(n as nat, |i: int| false),
    {
        let mut bits: Vec<bool> = Vec::new();
        let mut i: usize = 0;
        while i < n
            invariant
                i <= n,
                bits@ == Seq::new(i as nat, |j: int| false),
            decreases n - i,
        {
            bits.push(false);
            i = i + 1;
        }
        SignerBitfield { bits }
    }

    /// Set position `i`.
    pub fn set(&mut self, i: usize)
        requires
            i < old(self).bits@.len(),
        ensures
            final(self).bits@ == old(self).bits@.update(i as int, true),
    {
        self.bits[i] = true;
    }

    /// Clear position `i`.
    pub fn clear(&mut self, i: usize)
        requires
            i < old(self).bits@.len(),
        ensures
            final(self).bits@ == old(self).bits@.update(i as int, false),
    {
        self.bits[i] = false;
    }

    /// Width of the enumeration the bitfield indexes.
    pub fn num_validators(&self) -> (n: usize)
        ensures
            n == self.bits@.len(),
    {
        self.bits.len()
    }

    /// Whether position `i` is set; positions past the width are unset.
    pub fn is_set(&self, i: usize) -> (b: bool)
        ensures
            b == (i < self.bits@.len() && self.bits@[i as int]),
    {
        i < self.bits.len() && self.bits[i]
    }

    /// The set positions, in increasing order.
    pub fn set_indices(&self) -> (idx: Vec<usize>)
        ensures
            idx@ == set_indices_of(self.bits@),
    {
        let mut idx: Vec<usize> = Vec::new();
        let mut i: usize = 0;
        while i < self.bits.len()
            invariant
                i <= self.bits@.len(),
                idx@ == set_indices_of(self.bits@.take(i as int)),
            decreases self.bits@.len() - i,
        {
            assert(self.bits@.take(i + 1).drop_last() == self.bits@.take(i as int));
            if self.bits[i] {
                idx.push(i);
            }
            i = i + 1;
        }
        assert(self.bits@.take(i as int) == self.bits@);
        idx
    }

    /// Number of set positions.
    pub fn count_ones(&self) -> (n: usize)
        ensures
            n == count_ones_of(self.bits@),
    {
        let idx = self.set_indices();
        idx.len()
    }
}

/// Set positions are within the width and strictly increasing.
pub proof fn lemma_set_indices_in_range(bits: Seq<bool>)
    requires
        bits.len() <= usize::MAX,
    ensures
        forall|k: int| 0 <= k < set_indices_of(bits).len() ==> {
            &&& #[trigger] set_indices_of(bits)[k] < bits.len()
            &&& bits[set_indices_of(bits)[k] as int]
        },
        forall|a: int, b: int| 0 <= a < b < set_indices_of(bits).len() ==> set_indices_of(bits)[a] < set_indices_of(bits)[b],
        set_indices_of(bits).len() <= bits.len(),
    decreases bits.len(),
{
    if bits.len() > 0 {
        let init = bits.drop_last();
        lemma_set_indices_in_range(init);
        let r = set_indices_of(init);
        let s = set_indices_of(bits);
        assert forall|k: int| 0 <= k < s.len() implies #[trigger] s[k] < bits.len() && bits[s[k] as int] by {
            if k < r.len() {
                assert(s[k] == r[k]);
                assert(bits[r[k] as int] == init[r[k] as int]);
            } else {
                assert(bits.last());
                assert(s[k] == (bits.len() - 1) as usize);
            }
        }
        assert forall|a: int, b: int| 0 <= a < b < s.len() implies s[a] < s[b] by {
            if b < r.len() {
                assert(s[a] == r[a] && s[b] == r[b]);
            } else {
                assert(bits.last());
                assert(s[b] == (bits.len() - 1) as usize);
                assert(s[a] == r[a]);
                assert(r[a] < init.len());
            }
        }
    }
}

/// A set position is listed among the set indices.
pub proof fn lemma_set_position_listed(bits: Seq<bool>, i: int)
    requires
        0 <= i < bits.len(),
        bits[i],
    ensures
        set_indices_of(bits).contains(i as usize),
    decreases bits.len(),
{
    if i < bits.len() - 1 {
        lemma_set_position_listed(bits.drop_last(), i);
        assert(set_indices_of(bits.drop_last()).contains(i as usize));
        if bits.last() {
            let r = set_indices_of(bits.drop_last());
            let k = choose|k: int| 0 <= k < r.len() && r[k] == i as usize;
            assert(set_indices_of(bits)[k] == i as usize);
        }
    } else {
        assert(set_indices_of(bits).last() == i as usize);
    }
}

/// Quorum threshold over a pool of `n`: `ceil(2n / 3) + 1`.
pub open spec fn quorum_spec(n: int) -> int {
    (2 * n + 2) / 3 + 1
}

/// Quorum threshold over a pool of `pool_size` validators.
pub fn recovery_quorum(pool_size: usize) -> (q: usize)
    ensures
        q == quorum_spec(pool_size as int),
        3 * (q - 1) >= 2 * pool_size,
        3 * (q - 2) < 2 * pool_size,
{
    proof {
        lemma_quorum_rounding(pool_size as int);
    }
    pool_size - pool_size / 3 + 1
}

/// The quorum over a pool of `n` is two thirds of it rounded up, plus one:
/// one less than the quorum reaches two thirds of the pool, and two less
/// falls short of it.
pub proof fn lemma_quorum_rounding(n: int)
    requires
        n >= 0,
    ensures
        3 * (quorum_spec(n) - 1) >= 2 * n,
        3 * (quorum_spec(n) - 2) < 2 * n,
{
}

/// A certificate asserting that the active pool requests recovery from an
/// anchor block.
pub struct RecoveryCertificate {
    /// The anchor: the last finalized block's hash.
    pub last_block_hash: BeaconBlockHash,
    /// The anchor's epoch.
    pub last_block_epoch: Epoch,
    /// Recovery attempt number at this anchor.
    pub recovery_round: u32,
    /// Validators the recovery excludes.
    pub excluded_validators: Vec<ValidatorId>,
    /// Which pool members signed.
    pub signers: SignerBitfield,
    /// The aggregate signature, encoded.
    pub aggregate_sig: Vec<u8>,
}

/// Whether `cert` is rejected on structure alone against a pool of
/// `pool_size` and the last applied certificate (its anchor hash, epoch and
/// round): wrong bitfield width, below quorum, a round that does not advance
/// at the same anchor, or no signer.
pub open spec fn cert_rejected(
    cert_hash: BeaconBlockHash,
    cert_epoch: Epoch,
    cert_round: u32,
    bits: Seq<bool>,
    pool_size: int,
    last: Option<(BeaconBlockHash, Epoch, u32)>,
) -> bool {
    ||| bits.len() != pool_size
    ||| count_ones_of(bits) < quorum_spec(pool_size)
    ||| (last matches Some(prev) && prev.0 == cert_hash && prev.1 == cert_epoch && cert_round <= prev.2)
    ||| set_indices_of(bits).len() == 0
}

/// The anchor and round of a certificate.
pub open spec fn cert_anchor(cert: &RecoveryCertificate) -> (BeaconBlockHash, Epoch, u32) {
    (cert.last_block_hash, cert.last_block_epoch, cert.recovery_round)
}

/// The structural part of verifying a recovery certificate against an
/// active pool of `pool_size` validators and the last applied certificate.
/// `None` rejects the certificate; `Some(indices)` names the pool positions
/// whose keys the aggregate signature must verify under, over the canonical
/// recovery-request bytes of the certificate's anchor and round.
pub fn recovery_cert_signers(
    cert: &RecoveryCertificate,
    pool_size: usize,
    last_cert: Option<&RecoveryCertificate>,
) -> (signers: Option<Vec<usize>>)
    ensures
        signers is None <==> cert_rejected(
            cert.last_block_hash,
            cert.last_block_epoch,
            cert.recovery_round,
            cert.signers.bits@,
            pool_size as int,
            match last_cert {
                Some(prev) => Some(cert_anchor(prev)),
                None => None,
            },
        ),
        signers matches Some(idx) ==> idx@ == set_indices_of(cert.signers.bits@),
{
    if cert.signers.num_validators() != pool_size {
        return None;
    }
    let signer_count = cert.signers.count_ones();
    let quorum = recovery_quorum(pool_size);
    if signer_count < quorum {
        return None;
    }
    if let Some(prev) = last_cert {
        if hash_eq(&prev.last_block_hash, &cert.last_block_hash) && prev.last_block_epoch == cert.last_block_epoch
            && cert.recovery_round <= prev.recovery_round {
            return None;
        }
    }
    let idx = cert.signers.set_indices();
    if idx.len() == 0 {
        return None;
    }
    Some(idx)
}

/// Set positions counted one bit at a time.
proof fn lemma_count_ones_step(bits: Seq<bool>)
    requires
        bits.len() > 0,
    ensures
        count_ones_of(bits) == count_ones_of(bits.drop_last()) + (if bits.last() { 1int } else { 0int }),
{
}

/// Positions set in both `a` and `b`.
pub open spec fn common_bits(a: Seq<bool>, b: Seq<bool>) -> Seq<bool> {
    Seq::new(a.len(), |i: int| a[i] && b[i])
}

/// Two bitfields of one width have at least `count(a) + count(b) - width`
/// common positions.
proof fn lemma_common_count(a: Seq<bool>, b: Seq<bool>)
    requires
        a.len() == b.len(),
    ensures
        count_ones_of(a) + count_ones_of(b) <= a.len() + count_ones_of(common_bits(a, b)),
    decreases a.len(),
{
    if a.len() > 0 {
        let c = common_bits(a, b);
        assert(c.drop_last() =~= common_bits(a.drop_last(), b.drop_last()));
        lemma_common_count(a.drop_last(), b.drop_last());
        lemma_count_ones_step(a);
        lemma_count_ones_step(b);
        lemma_count_ones_step(c);
    }
}

/// An accepted certificate is signed by more than two thirds of the pool.
pub proof fn lemma_accepted_cert_supermajority(
    cert_hash: BeaconBlockHash,
    cert_epoch: Epoch,
    cert_round: u32,
    bits: Seq<bool>,
    pool_size: int,
    last: Option<(BeaconBlockHash, Epoch, u32)>,
)
    requires
        !cert_rejected(cert_hash, cert_epoch, cert_round, bits, pool_size, last),
    ensures
        3 * count_ones_of(bits) > 2 * pool_size,
        count_ones_of(bits) <= pool_size,
{
    let n = pool_size;
    let c = count_ones_of(bits) as int;
    assert(n >= 0);
    assert(c >= (2 * n + 2) / 3 + 1);
    assert(3 * c > 2 * n) by (nonlinear_arith)
        requires
            n >= 0,
            c >= (2 * n + 2) / 3 + 1,
    {}
    if bits.len() <= usize::MAX {
        lemma_set_indices_in_range(bits);
    } else {
        lemma_count_bounded(bits);
    }
}

/// The number of set positions never exceeds the width.
proof fn lemma_count_bounded(bits: Seq<bool>)
    ensures
        count_ones_of(bits) <= bits.len(),
    decreases bits.len(),
{
    if bits.len() > 0 {
        lemma_count_bounded(bits.drop_last());
        lemma_count_ones_step(bits);
    }
}

/// At an unchanged anchor an accepted certificate carries a strictly higher
/// recovery round than the last applied one.
pub proof fn lemma_accepted_cert_advances_round(
    cert_hash: BeaconBlockHash,
    cert_epoch: Epoch,
    cert_round: u32,
    bits: Seq<bool>,
    pool_size: int,
    prev: (BeaconBlockHash, Epoch, u32),
)
    requires
        !cert_rejected(cert_hash, cert_epoch, cert_round, bits, pool_size, Some(prev)),
        prev.0 == cert_hash,
        prev.1 == cert_epoch,
    ensures
        cert_round > prev.2,
{
}

/// Any two certificates accepted against the same pool have a signer in
/// common.
pub proof fn lemma_accepted_certs_share_signer(
    hash_a: BeaconBlockHash,
    epoch_a: Epoch,
    round_a: u32,
    bits_a: Seq<bool>,
    last_a: Option<(BeaconBlockHash, Epoch, u32)>,
    hash_b: BeaconBlockHash,
    epoch_b: Epoch,
    round_b: u32,
    bits_b: Seq<bool>,
    last_b: Option<(BeaconBlockHash, Epoch, u32)>,
    pool_size: int,
)
    requires
        !cert_rejected(hash_a, epoch_a, round_a, bits_a, pool_size, last_a),
        !cert_rejected(hash_b, epoch_b, round_b, bits_b, pool_size, last_b),
        pool_size <= usize::MAX,
    ensures
        exists|i: int| 0 <= i < pool_size && #[trigger] bits_a[i] && bits_b[i],
{
    lemma_accepted_cert_supermajority(hash_a, epoch_a, round_a, bits_a, pool_size, last_a);
    lemma_accepted_cert_supermajority(hash_b, epoch_b, round_b, bits_b, pool_size, last_b);
    lemma_common_count(bits_a, bits_b);
    let c = common_bits(bits_a, bits_b);
    assert(count_ones_of(c) > 0);
    lemma_count_bounded(c);
    lemma_set_indices_in_range(c);
    let i = set_indices_of(c)[0] as int;
    assert(c[i]);
    assert(bits_a[i] && bits_b[i]);
}

/// A signed request to recover from an anchor block.
pub struct RecoveryRequest {
    pub last_block_hash: BeaconBlockHash,
    pub last_block_epoch: Epoch,
    pub recovery_round: u32,
    pub signer: ValidatorId,
    pub sig: Vec<u8>,
}

/// The header fields of a beacon block.
#[derive(Debug, Clone, Copy)]
pub struct BeaconBlockHeader {
    pub epoch: Epoch,
    pub parent_hash: BeaconBlockHash,
    pub proposals_root: BeaconBlockHash,
    pub state_root: BeaconBlockHash,
    pub recovery_cert_hash: BeaconBlockHash,
}

/// Evidence that a validator requested recovery from an anchor while also
/// signing a strictly later block.
pub struct RecoveryEquivocation {
    pub validator: ValidatorId,
    pub request: RecoveryRequest,
    pub block_header: BeaconBlockHeader,
    pub block_signers: SignerBitfield,
    pub block_aggregate_sig: Vec<u8>,
}

/// The first position of `id` in `ids`, if any.
pub open spec fn first_position(ids: Seq<ValidatorId>, id: ValidatorId) -> Option<int> {
    if ids.contains(id) {
        Some(choose|p: int| 0 <= p < ids.len() && ids[p] == id && forall|q: int| 0 <= q < p ==> ids[q] != id)
    } else {
        None
    }
}

/// The structural part of verifying a recovery equivocation against the
/// validator-set enumeration `lookup_ids` (sorted ids, positions as the
/// bitfield indexes them). `None` rejects the evidence; `Some((position,
/// indices))` gives the equivocator's position — whose key must verify the
/// request signature over the request's canonical bytes — and the block
/// signers' positions, whose keys must verify the block aggregate signature
/// over the header's canonical bytes.
pub fn recovery_equivocation_signers(
    ev: &RecoveryEquivocation,
    lookup_ids: &[ValidatorId],
) -> (checks: Option<(usize, Vec<usize>)>)
    ensures
        checks is Some <==> equivocation_well_formed(ev, lookup_ids@),
        checks matches Some(c) ==> {
            &&& c.0 == first_position(lookup_ids@, ev.validator).unwrap()
            &&& c.1@ == set_indices_of(ev.block_signers.bits@)
        },
{
    if ev.block_header.epoch <= ev.request.last_block_epoch {
        return None;
    }
    if ev.request.signer != ev.validator {
        return None;
    }
    let mut position: usize = 0;
    let mut found = false;
    while position < lookup_ids.len()
        invariant_except_break
            position <= lookup_ids@.len(),
            !found,
            forall|q: int| 0 <= q < position ==> lookup_ids@[q] != ev.validator,
        ensures
            found ==> position < lookup_ids@.len() && lookup_ids@[position as int] == ev.validator
                && forall|q: int| 0 <= q < position ==> lookup_ids@[q] != ev.validator,
            !found ==> forall|q: int| 0 <= q < lookup_ids@.len() ==> lookup_ids@[q] != ev.validator,
        decreases lookup_ids@.len() - position,
    {
        if lookup_ids[position] == ev.validator {
            found = true;
            break;
        }
        position = position + 1;
    }
    if !found {
        return None;
    }
    proof {
        let ids = lookup_ids@;
        assert(ids.contains(ev.validator));
        let p = first_position(ids, ev.validator).unwrap();
        if p < position {
            assert(ids[p] != ev.validator);
        } else if p > position {
            assert(ids[position as int] != ev.validator);
        }
        assert(p == position);
    }
    if !ev.block_signers.is_set(position) {
        return None;
    }
    if ev.block_signers.num_validators() > lookup_ids.len() {
        return None;
    }
    let idx = ev.block_signers.set_indices();
    proof {
        lemma_set_position_listed(ev.block_signers.bits@, position as int);
    }
    if idx.len() == 0 {
        return None;
    }
    Some((position, idx))
}

/// Evidence is judged well formed by what it says, whatever the width of
/// its block's signer bitfield, so long as that bitfield is no wider than
/// the current validator enumeration: a bitfield narrower than
/// `lookup_ids` (validators registered after the block) is accepted when
/// the request postdates nothing it should, is signed by the accused, and
/// the accused's bit is set at its first position; a bitfield wider than
/// `lookup_ids` is always refused.
pub proof fn lemma_equivocation_width(ev: &RecoveryEquivocation, lookup_ids: Seq<ValidatorId>, p: int)
    ensures
        ev.block_signers.bits@.len() > lookup_ids.len() ==> !equivocation_well_formed(ev, lookup_ids),
        ({
            &&& ev.block_header.epoch > ev.request.last_block_epoch
            &&& ev.request.signer == ev.validator
            &&& 0 <= p < lookup_ids.len()
            &&& lookup_ids[p] == ev.validator
            &&& forall|q: int| 0 <= q < p ==> lookup_ids[q] != ev.validator
            &&& p < ev.block_signers.bits@.len()
            &&& ev.block_signers.bits@[p]
            &&& ev.block_signers.bits@.len() <= lookup_ids.len()
        }) ==> equivocation_well_formed(ev, lookup_ids),
{
    if 0 <= p < lookup_ids.len() && lookup_ids[p] == ev.validator && forall|q: int| 0 <= q < p ==> lookup_ids[q] != ev.validator {
        assert(lookup_ids.contains(ev.validator));
        let f = first_position(lookup_ids, ev.validator).unwrap();
        if f < p {
            assert(lookup_ids[f] != ev.validator);
        } else if f > p {
            assert(lookup_ids[p] != ev.validator);
        }
        assert(f == p);
    }
}

/// Verify a recovery certificate against an active pool of `pool_size`
/// validators and the last applied certificate, given the verdict of its
/// aggregate signature: `aggregate_verifies` is whether the signature
/// verifies under the keys at the positions [`recovery_cert_signers`]
/// names, over the canonical recovery-request bytes of the certificate's
/// anchor and round. The certificate is accepted exactly when it passes the
/// structural checks and the signature verifies.
pub fn verify_recovery_cert(
    cert: &RecoveryCertificate,
    pool_size: usize,
    last_cert: Option<&RecoveryCertificate>,
    aggregate_verifies: bool,
) -> (ok: bool)
    ensures
        ok == (!cert_rejected(
            cert.last_block_hash,
            cert.last_block_epoch,
            cert.recovery_round,
            cert.signers.bits@,
            pool_size as int,
            match last_cert {
                Some(prev) => Some(cert_anchor(prev)),
                None => None,
            },
        ) && aggregate_verifies),
{
    match recovery_cert_signers(cert, pool_size, last_cert) {
        Some(_) => aggregate_verifies,
        None => false,
    }
}

/// Whether an equivocation passes the structural checks against
/// `lookup_ids`.
pub open spec fn equivocation_well_formed(ev: &RecoveryEquivocation, lookup_ids: Seq<ValidatorId>) -> bool {
    &&& ev.block_header.epoch > ev.request.last_block_epoch
    &&& ev.request.signer == ev.validator
    &&& lookup_ids.contains(ev.validator)
    &&& ({
        let p = first_position(lookup_ids, ev.validator).unwrap();
        p < ev.block_signers.bits@.len() && ev.block_signers.bits@[p]
    })
    &&& ev.block_signers.bits@.len() <= lookup_ids.len()
}

/// Verify that a recovery equivocation is a genuine double attestation,
/// given the verdicts of its two signatures: `request_verifies` is whether
/// the request signature verifies under the equivocator's key over the
/// request's canonical bytes, and `block_verifies` whether the block
/// aggregate verifies under the keys of the positions
/// [`recovery_equivocation_signers`] names, over the header's canonical
/// bytes. Accepted exactly when the evidence is well formed and both
/// signatures verify.
pub fn verify_recovery_equivocation(
    ev: &RecoveryEquivocation,
    lookup_ids: &[ValidatorId],
    request_verifies: bool,
    block_verifies: bool,
) -> (ok: bool)
    ensures
        ok == (equivocation_well_formed(ev, lookup_ids@) && request_verifies && block_verifies),
{
    match recovery_equivocation_signers(ev, lookup_ids) {
        Some(_) => request_verifies && block_verifies,
        None => false,
    }
}

} // verus!
