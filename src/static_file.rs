//! The append-only static-file region, and the routing of reads between it and
//! the key-value tables.
use crate::errors::ProviderError;
use crate::models::{Header, Receipt, SealedHeader, TransactionSignedNoHash};
use crate::primitives::{B256, U256};

use crate::table::TableValue;
use vstd::prelude::*;

verus! {

/// The kinds of data that static files can hold.
#[derive(Clone, Copy, Debug, PartialEq, Eq, Structural)]
pub enum StaticFileSegment {
    Headers,
    Transactions,
    Receipts,
}

/// A header as the static files keep it: with its total difficulty and hash.
#[derive(Clone, Copy, Debug, PartialEq, Eq, Structural)]
pub struct StaticHeader {
    pub header: Header,
    pub total_difficulty: U256,
    pub hash: B256,
}

/// Append-only segments: entry `i` of each is block `i` (headers) or
/// transaction `i` (transactions, receipts), with no gaps.
pub struct StaticFileProvider {
    pub headers: Vec<StaticHeader>,
    pub transactions: Vec<TransactionSignedNoHash>,
    pub receipts: Vec<Receipt>,
}

/// The highest entry of a segment that holds `len` entries.
pub open spec fn highest_of(len: nat) -> Option<u64> {
    if len == 0 {
        None
    } else {
        Some((len - 1) as u64)
    }
}

/// Whether the static files serve entry `id` of a segment whose highest
/// entry is `highest`.
pub open spec fn in_static(highest: Option<u64>, id: u64) -> bool {
    match highest {
        Some(h) => id <= h,
        None => false,
    }
}

pub fn served_by_static(highest: Option<u64>, id: u64) -> (r: bool)
    ensures
        r == in_static(highest, id),
{
    match highest {
        Some(h) => id <= h,
        None => false,
    }
}

/// Splits the half-open range `[start, end)` at the static-file head: the
/// first part is read from the static files, the second from the tables.
pub fn split_range(start: u64, end: u64, highest: Option<u64>) -> (r: ((u64, u64), (u64, u64)))
    ensures
        r.0.0 == start,
        r.1.1 == end,
        r.0.1 == r.1.0 || (r.0.1 == start && r.1.0 == start && end < start) || (end <= start
            && r.0.1 == start && r.1.0 == end),
        forall|i: u64| start <= i < end ==> (in_static(highest, i) <==> i < r.0.1),
        forall|i: u64| start <= i < end ==> (!in_static(highest, i) <==> r.1.0 <= i),
{
    if end <= start {
        return ((start, start), (end, end));
    }
    match highest {
        None => ((start, start), (start, end)),
        Some(h) => {
            if h >= end - 1 {
                ((start, end), (end, end))
            } else if h < start {
                ((start, start), (start, end))
            } else {
                ((start, h + 1), (h + 1, end))
            }
        },
    }
}

impl StaticFileProvider {
    pub fn new() -> (r: StaticFileProvider)
        ensures
            r.headers@.len() == 0,
            r.transactions@.len() == 0,
            r.receipts@.len() == 0,
    {
        StaticFileProvider { headers: Vec::new(), transactions: Vec::new(), receipts: Vec::new() }
    }

    pub open spec fn highest_spec(&self, segment: StaticFileSegment) -> Option<u64> {
        match segment {
            StaticFileSegment::Headers => highest_of(self.headers@.len()),
            StaticFileSegment::Transactions => highest_of(self.transactions@.len()),
            StaticFileSegment::Receipts => highest_of(self.receipts@.len()),
        }
    }

    /// The highest block (headers) or transaction number held by a segment.
    pub fn get_highest_static_file_block(&self, segment: StaticFileSegment) -> (r: Option<u64>)
        ensures
            r == self.highest_spec(segment),
    {
        let len = match segment {
            StaticFileSegment::Headers => self.headers.len(),
            StaticFileSegment::Transactions => self.transactions.len(),
            StaticFileSegment::Receipts => self.receipts.len(),
        };
        if len == 0 {
            None
        } else {
            Some((len - 1) as u64)
        }
    }

    /// Appends the next header; it must follow the last one.
    pub fn append_header(&mut self, header: Header, total_difficulty: U256, hash: B256) -> (r:
        Result<(), ProviderError>)
        ensures
            final(self).transactions@ == old(self).transactions@,
            final(self).receipts@ == old(self).receipts@,
            header.number == old(self).headers@.len() ==> r is Ok && final(self).headers@ == old(
                self,
            ).headers@.push(StaticHeader { header, total_difficulty, hash }),
            header.number != old(self).headers@.len() ==> r == Err::<(), ProviderError>(
                ProviderError::UnexpectedStaticFileBlockNumber {
                    expected: old(self).headers@.len() as u64,
                    got: header.number,
                },
            ) && final(self).headers@ == old(self).headers@,
    {
        let expected = self.headers.len() as u64;
        if header.number != expected {
            return Err(ProviderError::UnexpectedStaticFileBlockNumber { expected, got: header.number });
        }
        self.headers.push(StaticHeader { header, total_difficulty, hash });
        Ok(())
    }

    /// Removes the last `count` headers (all of them if there are fewer).
    pub fn prune_headers(&mut self, count: u64)
        ensures
            final(self).transactions@ == old(self).transactions@,
            final(self).receipts@ == old(self).receipts@,
            final(self).headers@ == old(self).headers@.subrange(
                0,
                if count >= old(self).headers@.len() {
                    0
                } else {
                    old(self).headers@.len() - count
                },
            ),
    {
        let len = self.headers.len();
        let keep: usize = if count as u128 >= len as u128 {
            0
        } else {
            len - count as usize
        };
        self.headers.truncate(keep);
    }

    pub open spec fn header_spec(&self, number: u64) -> Option<StaticHeader> {
        if number < self.headers@.len() {
            Some(self.headers@[number as int])
        } else {
            None
        }
    }

    pub fn static_header(&self, number: u64) -> (r: Option<StaticHeader>)
        ensures
            r == self.header_spec(number),
    {
        if (number as u128) < (self.headers.len() as u128) {
            Some(self.headers[number as usize])
        } else {
            None
        }
    }

    pub fn sealed_header(&self, number: u64) -> (r: Option<SealedHeader>)
        ensures
            r == match self.header_spec(number) {
                Some(h) => Some(SealedHeader { header: h.header, hash: h.hash }),
                None => None,
            },
    {
        match self.static_header(number) {
            Some(h) => Some(SealedHeader { header: h.header, hash: h.hash }),
            None => None,
        }
    }

    pub fn transaction_by_id(&self, id: u64) -> (r: Option<TransactionSignedNoHash>)
        ensures
            id < self.transactions@.len() ==> (r matches Some(t) && t.encoded@ == self.transactions@[id as int].encoded@),
            id >= self.transactions@.len() ==> r is None,
    {
        if (id as u128) < (self.transactions.len() as u128) {
            Some(self.transactions[id as usize].duplicate())
        } else {
            None
        }
    }
}

} // verus!
