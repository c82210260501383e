//! The Fiat-Shamir heuristic: a deterministic hash chain over the protocol
//! transcript that stands in for a public-coin verifier's randomness. Both
//! parties re-derive the same challenges by consuming identical transcript
//! bytes, which is what makes the protocol non-interactive.

use vstd::prelude::*;
use sha2::Digest;
use crate::field::{Fp, points_wf, vals};
use super::RandomnessOracle;

verus! {

/// The SHA-256 digest of a byte string, named but never written out: the
/// trusted wrapper below ties it to the outside implementation.
pub uninterp spec fn sha256_of(bytes: Seq<u8>) -> Seq<u8>;

/// Relies on sha2's `Sha256` through the `Digest::digest` entry point: the
/// 32-byte digest depends on the input bytes alone.
#[verifier::external_body]
fn sha256(bytes: &Vec<u8>) -> (r: Vec<u8>)
    ensures
        r@ == sha256_of(bytes@),
        r@.len() == 32,
{
    sha2::Sha256::digest(bytes.as_slice()).to_vec()
}

/// The eight little-endian bytes of a machine word.
pub open spec fn le_bytes(v: int) -> Seq<u8> {
    seq![
        (v % 256) as u8,
        ((v / 256) % 256) as u8,
        ((v / 65536) % 256) as u8,
        ((v / 16777216) % 256) as u8,
        ((v / 4294967296) % 256) as u8,
        ((v / 1099511627776) % 256) as u8,
        ((v / 281474976710656) % 256) as u8,
        ((v / 72057594037927936) % 256) as u8,
    ]
}

/// The concatenated serializations of a sequence of residues.
pub open spec fn ser_elems(vs: Seq<int>) -> Seq<u8>
    decreases vs.len(),
{
    if vs.len() == 0 {
        Seq::empty()
    } else {
        ser_elems(vs.drop_last()) + le_bytes(vs.last())
    }
}

/// The value of the first eight bytes of a digest, little endian.
pub open spec fn digest_val(d: Seq<u8>) -> int {
    d[0] + 256 * (d[1] + 256 * (d[2] + 256 * (d[3] + 256 * (d[4] + 256 * (d[5] + 256 * (d[6]
        + 256 * d[7]))))))
}

/// The transcript bytes one oracle call hashes: the running state followed
/// by every input element, each as eight little-endian bytes.
pub open spec fn fs_bytes(state: int, input: Seq<int>) -> Seq<u8> {
    le_bytes(state) + ser_elems(input)
}

/// One step of the Fiat-Shamir chain: hash the transcript bytes and reduce
/// the leading digest bytes into the field.
pub open spec fn fs_next_val(state: int, input: Seq<int>, m: int) -> int {
    digest_val(sha256_of(fs_bytes(state, input))) % m
}

/// Append the eight little-endian bytes of `v`.
fn push_le_bytes(out: &mut Vec<u8>, v: u64)
    ensures
        final(out)@ == old(out)@ + le_bytes(v as int),
{
    out.push((v % 256) as u8);
    out.push(((v / 256) % 256) as u8);
    out.push(((v / 65536) % 256) as u8);
    out.push(((v / 16777216) % 256) as u8);
    out.push(((v / 4294967296) % 256) as u8);
    out.push(((v / 1099511627776) % 256) as u8);
    out.push(((v / 281474976710656) % 256) as u8);
    out.push(((v / 72057594037927936) % 256) as u8);
    proof {
        assert(final(out)@ =~= old(out)@ + le_bytes(v as int));
    }
}

/// The value of the first eight bytes of a digest, little endian.
fn first_eight_val(d: &Vec<u8>) -> (r: u64)
    requires
        d@.len() >= 8,
    ensures
        r as int == digest_val(d@),
{
    let b0: u64 = d[0] as u64;
    let b1: u64 = d[1] as u64;
    let b2: u64 = d[2] as u64;
    let b3: u64 = d[3] as u64;
    let b4: u64 = d[4] as u64;
    let b5: u64 = d[5] as u64;
    let b6: u64 = d[6] as u64;
    let b7: u64 = d[7] as u64;
    b0 + 256 * (b1 + 256 * (b2 + 256 * (b3 + 256 * (b4 + 256 * (b5 + 256 * (b6 + 256 * b7))))))
}

/// The deterministic randomness oracle: one mutable field value, advanced on
/// every call by hashing the running state together with the input into the
/// field. Its output is a pure function of state and input, and the state
/// only ever moves forward.
pub struct FiatShamir {
    current_state: Fp,
}

impl FiatShamir {
    /// The running state is a well-formed field element.
    pub closed spec fn wf(self) -> bool {
        self.current_state.wf()
    }

    /// The modulus of the field the chain runs over.
    pub closed spec fn m(self) -> int {
        self.current_state.m()
    }

    /// The running state as an integer.
    pub closed spec fn state_val(self) -> int {
        self.current_state.v()
    }

    /// A fresh chain over the field of the given order, starting from zero.
    pub fn new(modulus: u64) -> (r: FiatShamir)
        requires
            modulus >= 2,
        ensures
            r.wf(),
            r.m() == modulus as int,
            r.state_val() == 0,
    {
        FiatShamir { current_state: Fp::zero(modulus) }
    }

    /// Advance the chain: serialize the state and the input, hash, reduce.
    /// The result — also the new state — is pinned down exactly, so two
    /// parties consuming the same transcript derive the same challenges.
    pub fn next_random(&mut self, input: &Vec<Fp>) -> (r: Fp)
        requires
            old(self).wf(),
            points_wf(input@, old(self).m()),
        ensures
            r.wf(),
            r.m() == old(self).m(),
            r.v() == fs_next_val(old(self).state_val(), vals(input@), old(self).m()),
            final(self).wf(),
            final(self).m() == old(self).m(),
            final(self).state_val() == r.v(),
    {
        let m: u64 = self.current_state.modulus;
        let mut bytes: Vec<u8> = Vec::new();
        push_le_bytes(&mut bytes, self.current_state.value);
        let iv = Ghost(vals(input@));
        proof {
            assert(iv@.take(0) =~= Seq::<int>::empty());
            assert(bytes@ =~= le_bytes(old(self).state_val()) + ser_elems(iv@.take(0)));
        }
        let mut i: usize = 0;
        while i < input.len()
            invariant
                0 <= i <= input@.len(),
                points_wf(input@, m as int),
                iv@ == vals(input@),
                self == old(self),
                m as int == old(self).m(),
                bytes@ == le_bytes(old(self).state_val()) + ser_elems(iv@.take(i as int)),
            decreases input@.len() - i,
        {
            push_le_bytes(&mut bytes, input[i].value);
            proof {
                assert(iv@.take(i + 1).drop_last() =~= iv@.take(i as int));
                assert(iv@.take(i + 1).last() == iv@[i as int]);
                assert(ser_elems(iv@.take(i + 1)) == ser_elems(iv@.take(i as int)) + le_bytes(
                    iv@[i as int],
                ));
                assert(bytes@ =~= le_bytes(old(self).state_val()) + ser_elems(iv@.take(i + 1)));
            }
            i += 1;
        }
        proof {
            assert(iv@.take(input@.len() as int) =~= iv@);
            assert(bytes@ == fs_bytes(old(self).state_val(), iv@));
        }
        let d: Vec<u8> = sha256(&bytes);
        let x: u64 = first_eight_val(&d);
        let r: Fp = Fp::new(x, m);
        self.current_state = r;
        r
    }
}

impl RandomnessOracle for FiatShamir {
    open spec fn r_wf(&self) -> bool {
        self.wf()
    }

    open spec fn r_modulus(&self) -> int {
        self.m()
    }

    fn next_random(&mut self, input: &Vec<Fp>) -> (r: Fp) {
        FiatShamir::next_random(self, input)
    }
}

} // verus!
