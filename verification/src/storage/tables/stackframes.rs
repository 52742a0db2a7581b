//! The `stack_frames` table: what is known of an interpreted frame.

use crate::storage::bytes::{
    be_u128, be_u64, be_value16, be_value8, lemma_be_u128_order, lemma_be_u64_order,
    lemma_concat_eq, lemma_lex_lt_concat, lemma_u128_round_trip, lemma_u64_round_trip,
    u128_from_be, u128_to_be, u64_from_be, u64_to_be,
};
use crate::storage::dbtypes::FileId;
use crate::storage::table::{MergeOperator, StorageOpt, Table, TableKey};
use crate::storage::tables::executables::opt_text;
use vstd::prelude::*;
use vstd::slice::slice_to_vec;

verus! {

/// Globally unique identifier for a stack trace frame.
#[derive(Debug, PartialEq, Eq, Hash, Clone, Copy, Structural)]
pub struct FrameId {
    pub file_id: FileId,
    pub addr_or_line: u64,
}

impl TableKey for FrameId {
    type B = [u8; 24];

    open spec fn width() -> nat {
        24
    }

    open spec fn raw_view(raw: [u8; 24]) -> Seq<u8> {
        raw@
    }

    open spec fn encoding(self) -> Seq<u8> {
        be_u128(self.file_id.0) + be_u64(self.addr_or_line)
    }

    open spec fn decoding(bytes: Seq<u8>) -> FrameId {
        FrameId {
            file_id: FileId(be_value16(bytes.subrange(0, 16)) as u128),
            addr_or_line: be_value8(bytes.subrange(16, 24)) as u64,
        }
    }

    open spec fn storable(self) -> bool {
        true
    }

    open spec fn key_le(self, other: FrameId) -> bool {
        self.file_id.0 < other.file_id.0 || (self.file_id.0 == other.file_id.0
            && self.addr_or_line <= other.addr_or_line)
    }

    fn from_raw(data: [u8; 24]) -> (key: FrameId) {
        let f: [u8; 16] = [
            data[0], data[1], data[2], data[3], data[4], data[5], data[6], data[7],
            data[8], data[9], data[10], data[11], data[12], data[13], data[14], data[15],
        ];
        let a: [u8; 8] = [
            data[16], data[17], data[18], data[19], data[20], data[21], data[22], data[23],
        ];
        assert(f@ =~= data@.subrange(0, 16));
        assert(a@ =~= data@.subrange(16, 24));
        FrameId { file_id: FileId(u128_from_be(&f)), addr_or_line: u64_from_be(&a) }
    }

    fn into_raw(self) -> (raw: [u8; 24]) {
        let f = u128_to_be(self.file_id.0);
        let a = u64_to_be(self.addr_or_line);
        proof {
            lemma_u128_round_trip(self.file_id.0);
            lemma_u64_round_trip(self.addr_or_line);
        }
        let raw: [u8; 24] = [
            f[0], f[1], f[2], f[3], f[4], f[5], f[6], f[7],
            f[8], f[9], f[10], f[11], f[12], f[13], f[14], f[15],
            a[0], a[1], a[2], a[3], a[4], a[5], a[6], a[7],
        ];
        assert(raw@ =~= f@ + a@);
        raw
    }

    fn to_bytes(self) -> (bytes: Vec<u8>) {
        let raw = self.into_raw();
        slice_to_vec(raw.as_slice())
    }

    fn precedes(self, other: FrameId) -> (r: bool) {
        self.file_id.0 < other.file_id.0 || (self.file_id.0 == other.file_id.0
            && self.addr_or_line <= other.addr_or_line)
    }

    proof fn lemma_round_trip(self) {
        let f = be_u128(self.file_id.0);
        let a = be_u64(self.addr_or_line);
        lemma_u128_round_trip(self.file_id.0);
        lemma_u64_round_trip(self.addr_or_line);
        assert((f + a).subrange(0, 16) =~= f);
        assert((f + a).subrange(16, 24) =~= a);
    }

    proof fn lemma_key_order(self, other: FrameId) {
        let (p, s) = (be_u128(self.file_id.0), be_u64(self.addr_or_line));
        let (q, t) = (be_u128(other.file_id.0), be_u64(other.addr_or_line));
        lemma_u128_round_trip(self.file_id.0);
        lemma_u128_round_trip(other.file_id.0);
        lemma_be_u128_order(self.file_id.0, other.file_id.0);
        lemma_be_u64_order(self.addr_or_line, other.addr_or_line);
        lemma_lex_lt_concat(p, s, q, t);
        lemma_concat_eq(p, s, q, t);
    }
}

/// Symbol information for a frame.
#[derive(Debug, PartialEq, Eq, Hash, Clone)]
pub struct FrameMetaData {
    pub file_name: Option<String>,
    pub function_name: Option<String>,
    pub line_number: u64,
    pub function_offset: u32,
}

/// What a [`FrameMetaData`] holds.
pub struct FrameMetaDataView {
    pub file_name: Option<Seq<char>>,
    pub function_name: Option<Seq<char>>,
    pub line_number: u64,
    pub function_offset: u32,
}

impl View for FrameMetaData {
    type V = FrameMetaDataView;

    open spec fn view(&self) -> FrameMetaDataView {
        FrameMetaDataView {
            file_name: opt_text(self.file_name),
            function_name: opt_text(self.function_name),
            line_number: self.line_number,
            function_offset: self.function_offset,
        }
    }
}

impl Default for FrameMetaData {
    fn default() -> (meta: FrameMetaData)
        ensures
            meta@ == (FrameMetaDataView {
                file_name: None,
                function_name: None,
                line_number: 0,
                function_offset: 0,
            }),
    {
        FrameMetaData { file_name: None, function_name: None, line_number: 0, function_offset: 0 }
    }
}

/// The `stack_frames` table, keyed by the identifier of the frame. A
/// record is written when the frame is first seen.
pub struct StackFrames {
    pub table: Table,
}

impl StackFrames {
    /// The table with its empty cache.
    pub fn new() -> (frames: StackFrames)
        ensures
            frames.table.is_new(MergeOperator::Default, StorageOpt::RandomAccess, 16384),
    {
        StackFrames { table: Table::new(MergeOperator::Default, StorageOpt::RandomAccess, 16384) }
    }
}

} // verus!
