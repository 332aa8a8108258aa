//! The binary phrase record codec and the syllable key codec.
//!
//! A phrase record is `[frequency: 4-byte LE][last-used: 8-byte LE]
//! [text length: 1 byte][UTF-8 text]`. A record is valid iff its byte length
//! exceeds 12, the declared total length fits in the slice, and the text is
//! valid UTF-8. Invalid records are skipped by every reader, never reported.
//!
//! A syllable key is the concatenation of each syllable's 2-byte
//! little-endian code.

use crate::phrase::{Phrase, PhraseV};
use vstd::prelude::*;
use vstd::slice::slice_subrange;
use vstd::utf8::{decode_utf8, encode_utf8_decode_utf8, valid_utf8};

verus! {

/// The unsigned value of four little-endian bytes.
pub open spec fn le_u32(b: Seq<u8>) -> u32
    recommends
        b.len() == 4,
{
    ((b[0] as int) + (b[1] as int) * 0x100 + (b[2] as int) * 0x10000 + (b[3] as int)
        * 0x1000000) as u32
}

/// The unsigned value of eight little-endian bytes.
pub open spec fn le_u64(b: Seq<u8>) -> u64
    recommends
        b.len() == 8,
{
    ((b[0] as int) + (b[1] as int) * 0x100 + (b[2] as int) * 0x10000 + (b[3] as int) * 0x1000000
        + (b[4] as int) * 0x1_0000_0000 + (b[5] as int) * 0x100_0000_0000 + (b[6] as int)
        * 0x1_0000_0000_0000 + (b[7] as int) * 0x100_0000_0000_0000) as u64
}

/// Validity of a phrase record, as the record layout states it.
pub open spec fn record_valid(b: Seq<u8>) -> bool {
    &&& b.len() > 12
    &&& 13 + (b[12] as int) <= b.len()
    &&& valid_utf8(b.subrange(13, 13 + (b[12] as int)))
}

/// The phrase a valid record encodes.
pub open spec fn record_phrase(b: Seq<u8>) -> PhraseV
    recommends
        record_valid(b),
{
    PhraseV {
        phrase: decode_utf8(b.subrange(13, 13 + (b[12] as int))),
        freq: le_u32(b.subrange(0, 4)),
        last_used: Option::Some(le_u64(b.subrange(4, 12))),
    }
}

/// A raw phrase record, read in place from a byte slice.
#[derive(Debug, Clone, Copy)]
pub struct PhraseData<'a>(pub &'a [u8]);

impl<'a> PhraseData<'a> {
    /// Whether the slice holds a valid phrase record.
    pub fn is_valid(&self) -> (r: bool)
        ensures
            r == record_valid(self.0@),
    {
        if self.0.len() > 12 {
            let l = self.len();
            l <= self.0.len() && self.phrase_str().is_ok()
        } else {
            false
        }
    }

    /// The record's frequency field.
    pub fn frequency(&self) -> (r: u32)
        requires
            self.0@.len() >= 4,
        ensures
            r == le_u32(self.0@.subrange(0, 4)),
    {
        let b0 = *vstd::slice::slice_index_get(self.0, 0) as u32;
        let b1 = *vstd::slice::slice_index_get(self.0, 1) as u32;
        let b2 = *vstd::slice::slice_index_get(self.0, 2) as u32;
        let b3 = *vstd::slice::slice_index_get(self.0, 3) as u32;
        b0 + b1 * 0x100 + b2 * 0x10000 + b3 * 0x1000000
    }

    /// The record's last-used field.
    pub fn last_used(&self) -> (r: u64)
        requires
            self.0@.len() >= 12,
        ensures
            r == le_u64(self.0@.subrange(4, 12)),
    {
        let b0 = *vstd::slice::slice_index_get(self.0, 4) as u64;
        let b1 = *vstd::slice::slice_index_get(self.0, 5) as u64;
        let b2 = *vstd::slice::slice_index_get(self.0, 6) as u64;
        let b3 = *vstd::slice::slice_index_get(self.0, 7) as u64;
        let b4 = *vstd::slice::slice_index_get(self.0, 8) as u64;
        let b5 = *vstd::slice::slice_index_get(self.0, 9) as u64;
        let b6 = *vstd::slice::slice_index_get(self.0, 10) as u64;
        let b7 = *vstd::slice::slice_index_get(self.0, 11) as u64;
        b0 + b1 * 0x100 + b2 * 0x10000 + b3 * 0x1000000 + b4 * 0x1_0000_0000 + b5
            * 0x100_0000_0000 + b6 * 0x1_0000_0000_0000 + b7 * 0x100_0000_0000_0000
    }

    /// The record's text, if its bytes are valid UTF-8.
    pub fn phrase_str(&self) -> (r: Result<&'a str, core::str::Utf8Error>)
        requires
            self.0@.len() > 12,
            13 + (self.0@[12] as int) <= self.0@.len(),
        ensures
            r is Ok <==> valid_utf8(self.0@.subrange(13, 13 + (self.0@[12] as int))),
            r matches Ok(s) ==> s@ == decode_utf8(
                self.0@.subrange(13, 13 + (self.0@[12] as int)),
            ),
    {
        let len = *vstd::slice::slice_index_get(self.0, 12) as usize;
        let data = slice_subrange(self.0, 13, 13 + len);
        let r = utf8_from_bytes(data);
        proof {
            if r is Ok {
                let s = r->Ok_0;
                encode_utf8_decode_utf8(s@);
            }
        }
        r
    }

    /// The record's declared total length.
    pub fn len(&self) -> (r: usize)
        requires
            self.0@.len() > 12,
        ensures
            r == 13 + (self.0@[12] as int),
    {
        13 + *vstd::slice::slice_index_get(self.0, 12) as usize
    }
}

/// Relies on core::str::from_utf8: it succeeds exactly on valid UTF-8 and
/// the returned slice views the same bytes.
#[verifier::external_body]
fn utf8_from_bytes<'a>(v: &'a [u8]) -> (r: Result<&'a str, core::str::Utf8Error>)
    ensures
        r is Ok <==> valid_utf8(v@),
        r matches Ok(s) ==> vstd::string::StringSliceAdditionalSpecFns::spec_bytes(s) == v@,
{
    core::str::from_utf8(v)
}

/// Declares the error of a failed UTF-8 check so it can be named in results.
#[verifier::external_type_specification]
#[verifier::external_body]
pub struct ExUtf8Error(core::str::Utf8Error);

/// Decodes one raw backing-store value into a phrase; `None` on an invalid
/// record.
pub fn decode_phrase_record(bytes: &[u8]) -> (r: Option<Phrase>)
    ensures
        r is Some <==> record_valid(bytes@),
        r matches Some(p) ==> p@ == record_phrase(bytes@),
{
    let pd = PhraseData(bytes);
    if pd.is_valid() {
        let text = match pd.phrase_str() {
            Result::Ok(s) => s,
            Result::Err(_) => {
                proof {
                    assert(false);
                }
                ""
            },
        };
        Option::Some(
            Phrase {
                phrase: text.to_owned(),
                freq: pd.frequency(),
                last_used: Option::Some(pd.last_used()),
            },
        )
    } else {
        Option::None
    }
}

/// The syllables a syllable key encodes: consecutive 2-byte little-endian
/// codes; a trailing odd byte is ignored.
pub open spec fn syls_of_bytes(b: Seq<u8>) -> Seq<u16>
    decreases b.len(),
{
    if b.len() < 2 {
        Seq::empty()
    } else {
        seq![((b[0] as int) + (b[1] as int) * 0x100) as u16] + syls_of_bytes(b.skip(2))
    }
}

/// The syllable key of a syllable sequence: each code as two little-endian
/// bytes, concatenated.
pub open spec fn bytes_of_syls(s: Seq<u16>) -> Seq<u8>
    decreases s.len(),
{
    if s.len() == 0 {
        Seq::empty()
    } else {
        bytes_of_syls(s.drop_last()) + seq![
            (s.last() as int % 0x100) as u8,
            (s.last() as int / 0x100) as u8,
        ]
    }
}

/// Decodes a syllable key back into its syllable codes.
pub fn phrase_from_bytes(bytes: &[u8]) -> (r: Vec<u16>)
    ensures
        r@ == syls_of_bytes(bytes@),
{
    let mut out: Vec<u16> = Vec::new();
    let mut i: usize = 0;
    proof {
        assert(bytes@.skip(0) =~= bytes@);
    }
    while i + 1 < bytes.len()
        invariant
            i % 2 == 0,
            0 <= i <= bytes@.len(),
            syls_of_bytes(bytes@) =~= out@ + syls_of_bytes(bytes@.skip(i as int)),
        decreases bytes@.len() - i,
    {
        let lo = *vstd::slice::slice_index_get(bytes, i) as u16;
        let hi = *vstd::slice::slice_index_get(bytes, i + 1) as u16;
        let code: u16 = lo + hi * 0x100;
        proof {
            let rest = bytes@.skip(i as int);
            assert(rest[0] == bytes@[i as int]);
            assert(rest[1] == bytes@[i as int + 1]);
            assert(rest.skip(2) =~= bytes@.skip(i as int + 2));
        }
        out.push(code);
        i = i + 2;
    }
    proof {
        assert(syls_of_bytes(bytes@.skip(i as int)) =~= Seq::<u16>::empty());
    }
    out
}

/// Encodes a syllable sequence into its syllable key bytes.
pub fn syllable_bytes(syllables: &[u16]) -> (r: Vec<u8>)
    ensures
        r@ == bytes_of_syls(syllables@),
{
    let mut out: Vec<u8> = Vec::new();
    let mut i: usize = 0;
    while i < syllables.len()
        invariant
            0 <= i <= syllables@.len(),
            out@ =~= bytes_of_syls(syllables@.take(i as int)),
        decreases syllables@.len() - i,
    {
        let s = *vstd::slice::slice_index_get(syllables, i);
        out.push((s % 0x100) as u8);
        out.push((s / 0x100) as u8);
        proof {
            let t = syllables@.take(i as int + 1);
            assert(t.drop_last() =~= syllables@.take(i as int));
            assert(t.last() == syllables@[i as int]);
        }
        i = i + 1;
    }
    proof {
        assert(syllables@.take(syllables@.len() as int) =~= syllables@);
    }
    out
}

} // verus!
