//! The `stack_traces` table: frame lists by their fingerprint.

use crate::storage::bytes::{
    le_u128, le_value16, lemma_lex_trichotomy, lemma_u128_round_trip, lex_before, lex_le, two_64,
    u128_from_le, u128_to_le,
};
use crate::storage::fingerprint::{xxh3_128, xxh3_128_of};
use crate::storage::table::{MergeOperator, StorageOpt, Table, TableKey};
use crate::storage::tables::stackframes::FrameId;
use vstd::prelude::*;
use vstd::slice::slice_to_vec;

verus! {

/// Globally unique identifier for a stack trace: the 128-bit fingerprint of
/// its frame list.
#[derive(Debug, PartialEq, Eq, Default, Hash, Clone, Copy, Structural)]
pub struct TraceHash(pub u128);

impl TraceHash {
    /// Construct the ID from two `u64` halves.
    pub fn from_parts(hi: u64, lo: u64) -> (hash: TraceHash)
        ensures
            hash.0 == hi as int * two_64() + lo as int,
    {
        TraceHash((hi as u128) * 0x1_0000_0000_0000_0000 + (lo as u128))
    }
}

impl TableKey for TraceHash {
    type B = [u8; 16];

    open spec fn width() -> nat {
        16
    }

    open spec fn raw_view(raw: [u8; 16]) -> Seq<u8> {
        raw@
    }

    open spec fn encoding(self) -> Seq<u8> {
        le_u128(self.0)
    }

    open spec fn decoding(bytes: Seq<u8>) -> TraceHash {
        TraceHash(le_value16(bytes) as u128)
    }

    open spec fn storable(self) -> bool {
        true
    }

    /// A fingerprint orders nothing: the table is walked in the order of the
    /// stored bytes, least significant first.
    open spec fn key_le(self, other: TraceHash) -> bool {
        lex_le(le_u128(self.0), le_u128(other.0))
    }

    fn from_raw(data: [u8; 16]) -> (key: TraceHash) {
        TraceHash(u128_from_le(&data))
    }

    fn into_raw(self) -> (raw: [u8; 16]) {
        proof {
            lemma_u128_round_trip(self.0);
        }
        u128_to_le(self.0)
    }

    fn to_bytes(self) -> (bytes: Vec<u8>) {
        let raw = self.into_raw();
        slice_to_vec(raw.as_slice())
    }

    fn precedes(self, other: TraceHash) -> (r: bool) {
        let a = u128_to_le(self.0);
        let b = u128_to_le(other.0);
        proof {
            lemma_u128_round_trip(self.0);
            lemma_u128_round_trip(other.0);
            lemma_lex_trichotomy(a@, b@);
        }
        !lex_before(b.as_slice(), a.as_slice())
    }

    proof fn lemma_round_trip(self) {
        lemma_u128_round_trip(self.0);
    }

    proof fn lemma_key_order(self, other: TraceHash) {
    }
}

/// The interpreter, or kind of code, that a frame ran in.
#[derive(Debug, PartialEq, Eq, Hash, Clone, Copy, Structural)]
pub enum InterpKind {
    Python,
    Php,
    Native,
    Kernel,
    Jvm,
    Ruby,
    Perl,
    Js,
    PhpJit,
    DotNet,
    Beam,
    Go,
}

impl InterpKind {
    /// The number that stands for the kind in a stored frame: 1 to 12.
    pub open spec fn code_spec(self) -> u8 {
        match self {
            InterpKind::Python => 1,
            InterpKind::Php => 2,
            InterpKind::Native => 3,
            InterpKind::Kernel => 4,
            InterpKind::Jvm => 5,
            InterpKind::Ruby => 6,
            InterpKind::Perl => 7,
            InterpKind::Js => 8,
            InterpKind::PhpJit => 9,
            InterpKind::DotNet => 10,
            InterpKind::Beam => 11,
            InterpKind::Go => 12,
        }
    }

    /// The kind that a number stands for, if any.
    pub open spec fn from_raw_spec(raw: u8) -> Option<InterpKind> {
        if raw == 1 {
            Some(InterpKind::Python)
        } else if raw == 2 {
            Some(InterpKind::Php)
        } else if raw == 3 {
            Some(InterpKind::Native)
        } else if raw == 4 {
            Some(InterpKind::Kernel)
        } else if raw == 5 {
            Some(InterpKind::Jvm)
        } else if raw == 6 {
            Some(InterpKind::Ruby)
        } else if raw == 7 {
            Some(InterpKind::Perl)
        } else if raw == 8 {
            Some(InterpKind::Js)
        } else if raw == 9 {
            Some(InterpKind::PhpJit)
        } else if raw == 10 {
            Some(InterpKind::DotNet)
        } else if raw == 11 {
            Some(InterpKind::Beam)
        } else if raw == 12 {
            Some(InterpKind::Go)
        } else {
            None
        }
    }

    /// The kind that `raw` stands for; `None` for a number outside 1 to 12.
    pub fn from_raw(raw: u8) -> (kind: Option<InterpKind>)
        ensures
            kind == InterpKind::from_raw_spec(raw),
            kind.is_some() <==> 1 <= raw <= 12,
    {
        match raw {
            1 => Some(InterpKind::Python),
            2 => Some(InterpKind::Php),
            3 => Some(InterpKind::Native),
            4 => Some(InterpKind::Kernel),
            5 => Some(InterpKind::Jvm),
            6 => Some(InterpKind::Ruby),
            7 => Some(InterpKind::Perl),
            8 => Some(InterpKind::Js),
            9 => Some(InterpKind::PhpJit),
            10 => Some(InterpKind::DotNet),
            11 => Some(InterpKind::Beam),
            12 => Some(InterpKind::Go),
            _ => None,
        }
    }

    /// The number that stands for the kind.
    pub fn code(self) -> (raw: u8)
        ensures
            raw == self.code_spec(),
            1 <= raw <= 12,
            InterpKind::from_raw_spec(raw) == Some(self),
    {
        match self {
            InterpKind::Python => 1,
            InterpKind::Php => 2,
            InterpKind::Native => 3,
            InterpKind::Kernel => 4,
            InterpKind::Jvm => 5,
            InterpKind::Ruby => 6,
            InterpKind::Perl => 7,
            InterpKind::Js => 8,
            InterpKind::PhpJit => 9,
            InterpKind::DotNet => 10,
            InterpKind::Beam => 11,
            InterpKind::Go => 12,
        }
    }

    /// The name under which the kind is shown.
    pub open spec fn name_spec(self) -> Seq<char> {
        match self {
            InterpKind::Python => "Python"@,
            InterpKind::Php => "PHP"@,
            InterpKind::Native => "Native"@,
            InterpKind::Kernel => "Kernel"@,
            InterpKind::Jvm => "JVM"@,
            InterpKind::Ruby => "Ruby"@,
            InterpKind::Perl => "Perl"@,
            InterpKind::Js => "JS"@,
            InterpKind::PhpJit => "PHP (JIT)"@,
            InterpKind::DotNet => ".NET"@,
            InterpKind::Beam => "Beam"@,
            InterpKind::Go => "Go"@,
        }
    }

    /// The name under which the kind is shown.
    pub fn name(self) -> (text: &'static str)
        ensures
            text@ == self.name_spec(),
    {
        match self {
            InterpKind::Python => "Python",
            InterpKind::Php => "PHP",
            InterpKind::Native => "Native",
            InterpKind::Kernel => "Kernel",
            InterpKind::Jvm => "JVM",
            InterpKind::Ruby => "Ruby",
            InterpKind::Perl => "Perl",
            InterpKind::Js => "JS",
            InterpKind::PhpJit => "PHP (JIT)",
            InterpKind::DotNet => ".NET",
            InterpKind::Beam => "Beam",
            InterpKind::Go => "Go",
        }
    }
}

/// Type of a frame (e.g. native, Python, etc).
///
/// A frame's kind is stored as one byte. Its low seven bits name the
/// interpreter, its high bit marks a frame at which unwinding met an error,
/// and `0xFF` marks the place where unwinding was given up. A byte whose low
/// bits name no interpreter is kept as it is, so that nothing is lost when
/// the byte is written again.
#[derive(Debug, PartialEq, Eq, Hash, Clone, Copy, Structural)]
pub enum FrameKind {
    Regular(InterpKind),
    Error(InterpKind),
    Abort,
    Unknown(u8),
    UnknownError(u8),
}

impl FrameKind {
    /// The kind that a stored byte stands for.
    pub open spec fn from_raw_spec(raw: u8) -> FrameKind {
        if raw == 0xFF {
            FrameKind::Abort
        } else {
            let is_err = raw & 0x80 != 0;
            match InterpKind::from_raw_spec(raw & 0x7f) {
                Some(kind) => if is_err {
                    FrameKind::Error(kind)
                } else {
                    FrameKind::Regular(kind)
                },
                None => if is_err {
                    FrameKind::UnknownError(raw)
                } else {
                    FrameKind::Unknown(raw)
                },
            }
        }
    }

    /// The byte that stands for a kind.
    pub open spec fn raw_spec(self) -> u8 {
        match self {
            FrameKind::Regular(kind) => kind.code_spec(),
            FrameKind::Error(kind) => kind.code_spec() | 0x80,
            FrameKind::Abort => 0xFF,
            FrameKind::Unknown(raw) => raw,
            FrameKind::UnknownError(raw) => raw,
        }
    }

    /// The kind that the stored byte `raw` stands for.
    pub fn from_raw(raw: u8) -> (kind: FrameKind)
        ensures
            kind == FrameKind::from_raw_spec(raw),
            kind.raw_spec() == raw,
    {
        if raw == 0xFF {
            return FrameKind::Abort;
        }
        let is_err = raw & 0x80 != 0;
        let raw_interp = raw & 0x7f;
        proof {
            assert(is_err ==> raw == (raw & 0x7f) | 0x80) by (bit_vector)
                requires
                    is_err == (raw & 0x80 != 0),
            ;
            assert(!is_err ==> raw == raw & 0x7f) by (bit_vector)
                requires
                    is_err == (raw & 0x80 != 0),
            ;
        }
        match InterpKind::from_raw(raw_interp) {
            Some(kind) => if is_err {
                FrameKind::Error(kind)
            } else {
                FrameKind::Regular(kind)
            },
            None => if is_err {
                FrameKind::UnknownError(raw)
            } else {
                FrameKind::Unknown(raw)
            },
        }
    }

    /// The byte under which the kind is stored.
    pub fn into_raw(self) -> (raw: u8)
        ensures
            raw == self.raw_spec(),
    {
        match self {
            FrameKind::Regular(kind) => kind.code(),
            FrameKind::Error(kind) => kind.code() | 0x80,
            FrameKind::Abort => 0xFF,
            FrameKind::Unknown(raw) => raw,
            FrameKind::UnknownError(raw) => raw,
        }
    }

    /// The interpreter of a regular or error frame.
    pub fn interp(self) -> (kind: Option<InterpKind>)
        ensures
            kind == match self {
                FrameKind::Regular(x) => Some(x),
                FrameKind::Error(x) => Some(x),
                _ => None,
            },
    {
        match self {
            FrameKind::Regular(x) => Some(x),
            FrameKind::Error(x) => Some(x),
            _ => None,
        }
    }
}

/// A kind that was read from a byte is written as that byte again: the
/// stored byte of a frame survives any number of reads and writes.
pub proof fn lemma_frame_kind_keeps_byte(raw: u8)
    ensures
        FrameKind::from_raw_spec(raw).raw_spec() == raw,
{
    let is_err = raw & 0x80 != 0;
    assert(is_err ==> raw == (raw & 0x7f) | 0x80) by (bit_vector)
        requires
            is_err == (raw & 0x80 != 0),
    ;
    assert(!is_err ==> raw == raw & 0x7f) by (bit_vector)
        requires
            is_err == (raw & 0x80 != 0),
    ;
}

/// A regular or error frame, and the abort marker, are read back from their
/// byte as they were written.
pub proof fn lemma_frame_kind_round_trip(kind: FrameKind)
    requires
        kind is Regular || kind is Error || kind is Abort,
    ensures
        FrameKind::from_raw_spec(kind.raw_spec()) == kind,
{
    match kind {
        FrameKind::Regular(k) => {
            let c = k.code_spec();
            assert(c & 0x80 == 0 && c & 0x7f == c) by (bit_vector)
                requires
                    1 <= c <= 12,
            ;
        },
        FrameKind::Error(k) => {
            let c = k.code_spec();
            assert((c | 0x80) & 0x80 != 0 && (c | 0x80) & 0x7f == c && (c | 0x80) != 0xFF)
                by (bit_vector)
                requires
                    1 <= c <= 12,
            ;
        },
        _ => {},
    }
}

/// Entry in the frame list (additionally stores frame kind).
#[derive(Debug, Clone, Copy, Hash, PartialEq, Eq, Structural)]
pub struct Frame {
    pub id: FrameId,
    pub kind: FrameKind,
}

/// The 25 bytes that stand for a frame in a fingerprint: its identifier as
/// it is written in a key, then the byte of its kind.
pub open spec fn frame_bytes(frame: Frame) -> Seq<u8> {
    frame.id.encoding().push(frame.kind.raw_spec())
}

/// The bytes that stand for a frame list in its fingerprint: frame after
/// frame, the leaf first.
pub open spec fn frames_bytes(frames: Seq<Frame>) -> Seq<u8>
    decreases frames.len(),
{
    if frames.len() == 0 {
        Seq::empty()
    } else {
        frames_bytes(frames.drop_last()) + frame_bytes(frames.last())
    }
}

impl TraceHash {
    /// The fingerprint of a frame list.
    pub open spec fn of_frames_spec(frames: Seq<Frame>) -> TraceHash {
        TraceHash(xxh3_128_of(frames_bytes(frames)))
    }

    /// The fingerprint of a frame list: the 128-bit XXH3 hash of its frames,
    /// written one after the other from the leaf on.
    pub fn of_frames(frames: &Vec<Frame>) -> (hash: TraceHash)
        ensures
            hash == TraceHash::of_frames_spec(frames@),
    {
        let mut buf: Vec<u8> = Vec::new();
        let mut i: usize = 0;
        while i < frames.len()
            invariant
                i <= frames.len(),
                buf@ == frames_bytes(frames@.take(i as int)),
            decreases frames.len() - i,
        {
            let frame = frames[i];
            let id = frame.id.into_raw();
            let before = Ghost(buf@);
            let mut k: usize = 0;
            while k < 24
                invariant
                    k <= 24,
                    id@.len() == 24,
                    buf@ == before@ + id@.take(k as int),
                decreases 24 - k,
            {
                buf.push(id[k]);
                assert(id@.take(k + 1) =~= id@.take(k as int).push(id@[k as int]));
                k += 1;
            }
            buf.push(frame.kind.into_raw());
            proof {
                assert(id@.take(24) =~= id@);
                assert(frames@.take(i + 1).drop_last() =~= frames@.take(i as int));
                assert(buf@ =~= before@ + frame_bytes(frame));
            }
            i += 1;
        }
        assert(frames@.take(frames.len() as int) =~= frames@);
        TraceHash(xxh3_128(buf.as_slice()))
    }
}

/// The `stack_traces` table, keyed by the fingerprint of the frame list.
/// Stack traces are read often, so the table has a cache of its own size.
pub struct StackTraces {
    pub table: Table,
}

impl StackTraces {
    /// The table with its empty cache.
    pub fn new() -> (traces: StackTraces)
        ensures
            traces.table.is_new(MergeOperator::Default, StorageOpt::RandomAccess, 8192),
    {
        StackTraces { table: Table::new(MergeOperator::Default, StorageOpt::RandomAccess, 8192) }
    }
}

} // verus!
