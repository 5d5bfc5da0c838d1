//! Event logs and the logs bloom filter of a receipt.
use crate::models::copy_vec;
use crate::primitives::{keccak256_of, Address, B256};
use vstd::prelude::*;

verus! {

/// An event log: the emitting contract, its topics and its data.
#[derive(Clone, Debug, PartialEq, Eq)]
pub struct Log {
    pub address: Address,
    pub topics: Vec<B256>,
    pub data: Vec<u8>,
}

/// What a log holds, as plain values.
pub type LogImage = (Address, Seq<B256>, Seq<u8>);

pub open spec fn log_images(logs: Seq<Log>) -> Seq<LogImage> {
    Seq::new(logs.len(), |i: int| logs[i].image())
}

impl Log {
    pub open spec fn image(&self) -> LogImage {
        (self.address, self.topics@, self.data@)
    }

    pub fn duplicate(&self) -> (r: Log)
        ensures
            r.image() == self.image(),
    {
        Log { address: self.address, topics: copy_vec(&self.topics), data: copy_vec(&self.data) }
    }
}

/// A log in its consensus encoding: the same three fields.
#[derive(Clone, Debug, PartialEq, Eq)]
pub struct ConsensusLog {
    pub address: Address,
    pub topics: Vec<B256>,
    pub data: Vec<u8>,
}

impl From<Log> for ConsensusLog {
    fn from(log: Log) -> (r: ConsensusLog) {
        ConsensusLog { address: log.address, topics: log.topics, data: log.data }
    }
}

impl vstd::std_specs::convert::FromSpecImpl<Log> for ConsensusLog {
    open spec fn obeys_from_spec() -> bool {
        true
    }

    open spec fn from_spec(log: Log) -> ConsensusLog {
        ConsensusLog { address: log.address, topics: log.topics, data: log.data }
    }
}

impl From<ConsensusLog> for Log {
    fn from(log: ConsensusLog) -> (r: Log) {
        Log { address: log.address, topics: log.topics, data: log.data }
    }
}

impl vstd::std_specs::convert::FromSpecImpl<ConsensusLog> for Log {
    open spec fn obeys_from_spec() -> bool {
        true
    }

    open spec fn from_spec(log: ConsensusLog) -> Log {
        Log { address: log.address, topics: log.topics, data: log.data }
    }
}

/// The number of bytes of a logs bloom filter (2048 bits).
pub const BLOOM_SIZE_BYTES: usize = 256;

/// A 2048-bit bloom filter over log addresses and topics.
#[derive(Clone, Debug, PartialEq, Eq)]
pub struct Bloom {
    pub bytes: Vec<u8>,
}

/// The filter bit that bytes `i` and `i + 1` of a digest choose: their
/// big-endian value modulo 2048.
pub open spec fn m3_bit(hash: Seq<u8>, i: int) -> int {
    (hash[i] as int * 256 + hash[i + 1] as int) % 2048
}

/// The filter with bit `bit` set; bit 0 is the lowest bit of the last byte.
pub open spec fn set_bloom_bit(bloom: Seq<u8>, bit: int) -> Seq<u8> {
    let byte = 255 - bit / 8;
    bloom.update(byte, bloom[byte] | (1u8 << ((bit % 8) as u8)))
}

/// The filter after accruing `input`: the three bits chosen by bytes 0-1,
/// 2-3 and 4-5 of the input's Keccak-256 digest are set.
pub open spec fn bloom_m3_2048_of(bloom: Seq<u8>, input: Seq<u8>) -> Seq<u8> {
    let h = keccak256_of(input).bytes();
    set_bloom_bit(set_bloom_bit(set_bloom_bit(bloom, m3_bit(h, 0)), m3_bit(h, 2)), m3_bit(h, 4))
}

/// Relies on `alloy_primitives::Bloom::m3_2048`: it hashes the input with
/// `keccak256` and sets, for the byte pairs 0-1, 2-3 and 4-5 of the digest,
/// the bit their big-endian value picks modulo 2048 (`m3_2048_hashed`).
#[verifier::external_body]
fn bloom_m3_2048(bloom: &mut Vec<u8>, input: &[u8])
    requires
        old(bloom)@.len() == BLOOM_SIZE_BYTES,
    ensures
        final(bloom)@ == bloom_m3_2048_of(old(bloom)@, input@),
        final(bloom)@.len() == BLOOM_SIZE_BYTES,
{
    let mut b = alloy_primitives::Bloom::from_slice(bloom.as_slice());
    b.m3_2048(input);
    *bloom = b.as_slice().to_vec();
}

/// The filter after accruing `topics`, one after another.
pub open spec fn accrue_topics(bloom: Seq<u8>, topics: Seq<B256>) -> Seq<u8>
    decreases topics.len(),
{
    if topics.len() == 0 {
        bloom
    } else {
        bloom_m3_2048_of(accrue_topics(bloom, topics.drop_last()), topics.last().bytes())
    }
}

/// The filter after accruing a log: its address, then each of its topics.
pub open spec fn accrue_log(bloom: Seq<u8>, log: Log) -> Seq<u8> {
    accrue_topics(bloom_m3_2048_of(bloom, log.address.bytes()), log.topics@)
}

/// The bloom filter of a list of logs, starting from the empty filter.
pub open spec fn logs_bloom_of(logs: Seq<Log>) -> Seq<u8>
    decreases logs.len(),
{
    if logs.len() == 0 {
        Seq::new(BLOOM_SIZE_BYTES as nat, |i: int| 0u8)
    } else {
        accrue_log(logs_bloom_of(logs.drop_last()), logs.last())
    }
}

/// Calculates the logs bloom of a receipt's logs.
pub fn logs_bloom(logs: &Vec<Log>) -> (r: Bloom)
    ensures
        r.bytes@ == logs_bloom_of(logs@),
{
    let mut bytes: Vec<u8> = vec![0u8; BLOOM_SIZE_BYTES];
    proof {
        assert(bytes@ =~= logs_bloom_of(logs@.subrange(0, 0)));
    }
    let mut i: usize = 0;
    while i < logs.len()
        invariant
            i <= logs@.len(),
            bytes@ == logs_bloom_of(logs@.subrange(0, i as int)),
            bytes@.len() == BLOOM_SIZE_BYTES,
        decreases logs@.len() - i,
    {
        let log = &logs[i];
        let address = log.address.to_bytes();
        bloom_m3_2048(&mut bytes, address.as_slice());
        let ghost start = bytes@;
        let mut j: usize = 0;
        while j < log.topics.len()
            invariant
                j <= log.topics@.len(),
                bytes@ == accrue_topics(start, log.topics@.subrange(0, j as int)),
                bytes@.len() == BLOOM_SIZE_BYTES,
            decreases log.topics@.len() - j,
        {
            let topic = log.topics[j].to_bytes();
            bloom_m3_2048(&mut bytes, topic.as_slice());
            proof {
                assert(log.topics@.subrange(0, j + 1).drop_last() =~= log.topics@.subrange(
                    0,
                    j as int,
                ));
            }
            j = j + 1;
        }
        proof {
            assert(log.topics@.subrange(0, j as int) =~= log.topics@);
            assert(logs@.subrange(0, i + 1).drop_last() =~= logs@.subrange(0, i as int));
        }
        i = i + 1;
    }
    proof {
        assert(logs@.subrange(0, i as int) =~= logs@);
    }
    Bloom { bytes }
}

} // verus!
