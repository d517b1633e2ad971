//! Replacing a Japanese dictionary at run time: parse the new bytes,
//! report the entry counts before and after; and the corpus total of a
//! dictionary's raw frequencies. The process-wide slots that hold the
//! current dictionaries are the caller's.

use vstd::prelude::*;

use crate::digest::sha256_spec;
use crate::idf::{idf_entries, idf_error, Entry, EntryView, IdfReader, OpenError};

verus! {

/// Entry counts of the dictionary before and after a reload.
#[derive(Debug, Clone, Copy, PartialEq, Eq)]
pub struct IdfReloadReport {
    pub old_entry_count: u32,
    pub new_entry_count: u32,
}

/// Why a reload was refused: the new bytes are not a dictionary.
#[derive(Debug, PartialEq, Eq)]
pub enum IdfReloadError {
    Parse(OpenError),
}

/// Parse `bytes` as the replacement for `old`. On success the new
/// reader and the counts; on failure the reason, `old` untouched.
pub fn reload_idf(old: &IdfReader, bytes: Vec<u8>) -> (r: Result<(IdfReader, IdfReloadReport), IdfReloadError>)
    ensures
        match idf_error(bytes@, if bytes@.len() >= 96 { sha256_spec(bytes@.skip(96)) } else { Seq::empty() }) {
            Some(e) => r == Err::<(IdfReader, IdfReloadReport), IdfReloadError>(IdfReloadError::Parse(e)),
            None => r matches Ok((rd, rep)) && rd.bytes() == bytes@ && rep.old_entry_count == old.header_spec().entry_count
                && rep.new_entry_count == rd.header_spec().entry_count,
        },
{
    match IdfReader::from_bytes(bytes) {
        Err(e) => Err(IdfReloadError::Parse(e)),
        Ok(rd) => {
            let report = IdfReloadReport { old_entry_count: old.entry_count(), new_entry_count: rd.entry_count() };
            Ok((rd, report))
        },
    }
}

/// Sum of the raw frequencies of `s`.
pub open spec fn raw_freq_total(s: Seq<EntryView>) -> int
    decreases s.len(),
{
    if s.len() == 0 {
        0
    } else {
        raw_freq_total(s.drop_last()) + s.last().5
    }
}

proof fn lemma_total_bound(s: Seq<EntryView>)
    ensures
        0 <= raw_freq_total(s) <= s.len() * 0xFFFF_FFFF,
    decreases s.len(),
{
    if s.len() > 0 {
        lemma_total_bound(s.drop_last());
    }
}

/// The corpus total of `reader`: the sum of its entries' raw
/// frequencies.
pub fn corpus_total(reader: &IdfReader) -> (t: u64)
    ensures
        t == raw_freq_total(idf_entries(reader.bytes(), reader.header_spec())),
{
    let all: Vec<Entry> = reader.entries();
    let ghost es = idf_entries(reader.bytes(), reader.header_spec());
    let mut total: u64 = 0;
    let mut i: usize = 0;
    proof {
        assert(all@.len() == es.len()) by {
            assert(crate::idf::entries_view(all@).len() == all@.len());
        }
    }
    while i < all.len()
        invariant
            es == idf_entries(reader.bytes(), reader.header_spec()),
            crate::idf::entries_view(all@) == es,
            all@.len() == es.len(),
            es.len() <= u32::MAX,
            i <= all@.len(),
            total == raw_freq_total(es.take(i as int)),
        decreases all@.len() - i,
    {
        proof {
            assert(es.take(i + 1).drop_last() =~= es.take(i as int));
            assert(es.take(i + 1).last() == es[i as int]);
            assert(es[i as int] == crate::idf::entry_view(all@[i as int]));
            lemma_total_bound(es.take(i as int));
            assert(i * 0xFFFF_FFFF <= 0xFFFF_FFFF * 0xFFFF_FFFF) by (nonlinear_arith)
                requires
                    i <= 0xFFFF_FFFF,
            ;
        }
        total = total + all[i].raw_freq as u64;
        i = i + 1;
    }
    assert(es.take(i as int) =~= es);
    total
}

} // verus!
