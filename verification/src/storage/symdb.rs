//! Symbols of an executable: which function, file and line an address
//! belongs to, with the functions that were inlined at it.

use crate::storage::bytes::be_u128;
use crate::storage::dbtypes::{hex_text, FileId};
use crate::storage::intervaltree::{Element, Query, Tree};
use crate::storage::tables::executables::opt_text;
use crate::storage::tables::stackframes::{FrameMetaData, FrameMetaDataView};
use crate::storage::tables::stacktraces::{Frame, FrameKind, InterpKind};
use vstd::prelude::*;
use vstd::string::StringExecFns;

verus! {

/// The name of the file that holds the symbol tree of an executable: the
/// file id in hexadecimal digits and `.symtree`. A tree is written under
/// the name with `.temp` behind it and then moved over the final name, so
/// that whoever has the old file open keeps reading the old tree.
pub open spec fn file_name_spec(file_id: FileId, temp: bool) -> Seq<char> {
    hex_text(be_u128(file_id.0)) + ".symtree"@ + if temp {
        ".temp"@
    } else {
        Seq::empty()
    }
}

/// The name of the file that holds the symbol tree of an executable; with
/// `temp`, the name under which it is written first.
pub fn file_name(file_id: FileId, temp: bool) -> (name: String)
    ensures
        name@ == file_name_spec(file_id, temp),
{
    let mut name = file_id.format_hex();
    name.append(".symtree");
    if temp {
        name.append(".temp");
    }
    assert(name@ =~= file_name_spec(file_id, temp));
    name
}

/// Reference into the string table of a [`SymTree`].
#[derive(Debug, Clone, Copy, PartialEq, Eq, Structural)]
pub struct StringRef(pub u32);

impl StringRef {
    /// Sentinel value for representing the absence of a string.
    pub fn none() -> (idx: StringRef)
        ensures
            idx == StringRef(u32::MAX),
    {
        StringRef(u32::MAX)
    }
}

/// Entry of a line table: from `offset` on, counted from the start of the
/// range, the code belongs to line `line_number`.
#[derive(Debug, Clone, Copy, PartialEq, Eq, Structural)]
pub struct LineTableEntry {
    pub offset: u32,
    pub line_number: u32,
}

impl Default for LineTableEntry {
    fn default() -> (entry: LineTableEntry)
        ensures
            entry == (LineTableEntry { offset: 0, line_number: 0 }),
    {
        LineTableEntry { offset: 0, line_number: 0 }
    }
}

/// What is known of a range of addresses: the function it belongs to, at
/// which depth of inlining, and from where it was called.
#[derive(Debug, Clone, PartialEq, Eq)]
pub struct SymRange {
    pub func: StringRef,
    pub file: StringRef,
    pub call_file: StringRef,
    pub call_line: Option<u32>,
    pub depth: u16,
    pub line_table: Vec<LineTableEntry>,
}

/// How many entries at the front of a line table, from `from` on, lie at or
/// before the offset `max_offs`.
pub open spec fn covered(table: Seq<LineTableEntry>, max_offs: int, from: int) -> int
    decreases table.len() - from,
{
    if from < 0 || from >= table.len() || table[from].offset > max_offs {
        0
    } else {
        1 + covered(table, max_offs, from + 1)
    }
}

/// The line of an address in a range that starts at `start`: that of the
/// last entry of the line table before the first one that lies behind the
/// address. In a table that is ordered by offset this is the entry with the
/// largest offset at or before the address.
pub open spec fn line_of(table: Seq<LineTableEntry>, start: u64, va: u64) -> Option<u32> {
    if va < start || covered(table, va - start, 0) == 0 {
        None
    } else {
        Some(table[covered(table, va - start, 0) - 1].line_number)
    }
}

proof fn lemma_covered_bounds(table: Seq<LineTableEntry>, max_offs: int, from: int)
    requires
        0 <= from <= table.len(),
    ensures
        0 <= covered(table, max_offs, from) <= table.len() - from,
    decreases table.len() - from,
{
    if from < table.len() && table[from].offset <= max_offs {
        lemma_covered_bounds(table, max_offs, from + 1);
    }
}

/// Whether a line table is ordered by offset.
pub open spec fn ordered_by_offset(table: Seq<LineTableEntry>) -> bool {
    forall|i: int, j: int|
        0 <= i <= j < table.len() ==> (#[trigger] table[i]).offset <= (#[trigger] table[j]).offset
}

proof fn lemma_covered_prefix(table: Seq<LineTableEntry>, max_offs: int, from: int)
    requires
        0 <= from <= table.len(),
        ordered_by_offset(table),
    ensures
        forall|k: int|
            from <= k < from + covered(table, max_offs, from) ==> (#[trigger] table[k]).offset
                <= max_offs,
        forall|k: int|
            from + covered(table, max_offs, from) <= k < table.len() ==> (#[trigger] table[k]).offset
                > max_offs,
    decreases table.len() - from,
{
    if from < table.len() {
        if table[from].offset <= max_offs {
            lemma_covered_prefix(table, max_offs, from + 1);
        } else {
            assert forall|k: int| from <= k < table.len() implies (#[trigger] table[k]).offset
                > max_offs by {
                assert(table[from].offset <= table[k].offset);
            }
        }
    }
}

/// In a line table that is ordered by offset, the line of an address is
/// that of an entry with the largest offset at or before the address:
/// the entry lies at or before the address, and no entry behind it does.
/// Where no entry lies at or before the address, there is no line.
pub proof fn lemma_line_is_of_largest_offset(table: Seq<LineTableEntry>, start: u64, va: u64)
    requires
        ordered_by_offset(table),
        va >= start,
    ensures
        match line_of(table, start, va) {
            Some(line) => exists|k: int|
                0 <= k < table.len() && (#[trigger] table[k]).line_number == line && table[k].offset
                    <= va - start && forall|j: int|
                    k < j < table.len() ==> (#[trigger] table[j]).offset > va - start,
            None => forall|j: int| 0 <= j < table.len() ==> (#[trigger] table[j]).offset > va - start,
        },
{
    let max_offs = va - start;
    lemma_covered_bounds(table, max_offs, 0);
    lemma_covered_prefix(table, max_offs, 0);
    let n = covered(table, max_offs, 0);
    if n > 0 {
        assert(table[n - 1].line_number == line_of(table, start, va)->0 && table[n - 1].offset
            <= max_offs);
    }
}

impl SymRange {
    /// Looks up the line number for the given virtual address.
    ///
    /// `start` is where the range covered by this object starts. It needs
    /// to be passed in because it is stored outside of this type, in the
    /// tree.
    pub fn line_number_for_va(&self, start: u64, va: u64) -> (line: Option<u32>)
        ensures
            line == line_of(self.line_table@, start, va),
    {
        if va < start {
            return None;
        }
        let max_offs = va - start;
        let mut line: Option<u32> = None;
        let mut i: usize = 0;
        proof {
            lemma_covered_bounds(self.line_table@, max_offs as int, 0);
        }
        while i < self.line_table.len() && self.line_table[i].offset as u64 <= max_offs
            invariant
                i <= self.line_table.len(),
                covered(self.line_table@, max_offs as int, 0) == i + covered(
                    self.line_table@,
                    max_offs as int,
                    i as int,
                ),
                line == if i == 0 {
                    None
                } else {
                    Some(self.line_table[i - 1].line_number)
                },
            decreases self.line_table.len() - i,
        {
            line = Some(self.line_table[i].line_number);
            i += 1;
        }
        line
    }
}

/// Symbol interval tree: the ranges of an executable, and the table of the
/// strings that they name.
#[derive(Debug)]
pub struct SymTree {
    pub strings: Vec<String>,
    pub tree: Tree<SymRange>,
}

impl SymTree {
    /// The string that a reference names, if it names one.
    pub open spec fn str_at(&self, idx: StringRef) -> Option<Seq<char>> {
        if idx.0 < self.strings.len() {
            Some(self.strings[idx.0 as int]@)
        } else {
            None
        }
    }

    /// The string that a reference names; `None` for the sentinel and for
    /// any other reference that leads outside the table.
    pub fn str_by_ref(&self, idx: StringRef) -> (text: Option<&str>)
        ensures
            match text {
                Some(t) => self.str_at(idx) == Some(t@),
                None => self.str_at(idx) is None,
            },
    {
        if (idx.0 as usize) < self.strings.len() {
            Some(self.strings[idx.0 as usize].as_str())
        } else {
            None
        }
    }
}

/// Frame with corresponding symbol information.
#[derive(Debug, Clone, PartialEq, Eq)]
pub struct SymbolizedFrame {
    /// Raw frame info.
    pub raw: Frame,
    /// Function name, if known.
    pub func: Option<String>,
    /// File name, if known.
    pub file: Option<String>,
    /// Line number, if known.
    pub line_no: Option<u32>,
}

/// What a [`SymbolizedFrame`] holds.
pub struct SymbolizedFrameView {
    pub raw: Frame,
    pub func: Option<Seq<char>>,
    pub file: Option<Seq<char>>,
    pub line_no: Option<u32>,
}

impl View for SymbolizedFrame {
    type V = SymbolizedFrameView;

    open spec fn view(&self) -> SymbolizedFrameView {
        SymbolizedFrameView {
            raw: self.raw,
            func: opt_text(self.func),
            file: opt_text(self.file),
            line_no: self.line_no,
        }
    }
}

/// The record of a frame of which nothing is known.
pub open spec fn unsymbolized_view(raw: Frame) -> SymbolizedFrameView {
    SymbolizedFrameView { raw, func: None, file: None, line_no: None }
}

impl SymbolizedFrame {
    /// Create a fully unsymbolized frame.
    pub fn unsymbolized(raw: Frame) -> (frame: SymbolizedFrame)
        ensures
            frame@ == unsymbolized_view(raw),
    {
        SymbolizedFrame { raw, func: None, file: None, line_no: None }
    }
}

/// The record of an interpreted frame: what the table of frames knows of
/// it. A line number of zero stands for none, and a line number that does
/// not fit in 32 bits keeps its lower 32 bits.
pub open spec fn interp_record(raw: Frame, meta: Option<FrameMetaDataView>) -> SymbolizedFrameView {
    match meta {
        None => unsymbolized_view(raw),
        Some(m) => SymbolizedFrameView {
            raw,
            func: m.function_name,
            file: m.file_name,
            line_no: if m.line_number == 0 {
                None
            } else {
                Some((m.line_number % 0x1_0000_0000) as u32)
            },
        },
    }
}

fn owned_copy(text: &Option<String>) -> (copy: Option<String>)
    ensures
        opt_text(copy) == opt_text(*text),
{
    match text {
        Some(t) => Some(t.clone()),
        None => None,
    }
}

fn owned_str(text: Option<&str>) -> (copy: Option<String>)
    ensures
        match text {
            Some(t) => opt_text(copy) == Some(t@),
            None => copy is None,
        },
{
    match text {
        Some(t) => Some(t.to_owned()),
        None => None,
    }
}

/// Symbolizes an interpreted frame from its record in the table of frames,
/// where there is one.
pub fn symbolize_interp_frame(raw: Frame, meta: Option<&FrameMetaData>) -> (frame: SymbolizedFrame)
    ensures
        frame@ == interp_record(
            raw,
            match meta {
                Some(m) => Some(m@),
                None => None,
            },
        ),
{
    match meta {
        None => SymbolizedFrame::unsymbolized(raw),
        Some(m) => SymbolizedFrame {
            raw,
            func: owned_copy(&m.function_name),
            file: owned_copy(&m.file_name),
            line_no: if m.line_number == 0 {
                None
            } else {
                Some((m.line_number % 0x1_0000_0000) as u32)
            },
        },
    }
}

/// The place at which a range of depth `depth` belongs in a list that is
/// ordered by depth: the first place whose range is at least as deep.
pub open spec fn depth_slot(list: Seq<Element<SymRange>>, depth: u16, from: int) -> int
    decreases list.len() - from,
{
    if from < 0 || from >= list.len() || list[from].value.depth >= depth {
        from
    } else {
        depth_slot(list, depth, from + 1)
    }
}

/// A list ordered by depth with one more range taken in: the range goes to
/// its place, unless a range of its depth is there already.
pub open spec fn with_range(list: Seq<Element<SymRange>>, e: Element<SymRange>) -> Seq<
    Element<SymRange>,
> {
    let slot = depth_slot(list, e.value.depth, 0);
    if slot < list.len() && list[slot].value.depth == e.value.depth {
        list
    } else {
        list.insert(slot, e)
    }
}

/// The ranges that were found at an address, ordered by depth, the least
/// deep first. Of several ranges of one depth, the one found first stays.
pub open spec fn by_depth(found: Seq<Element<SymRange>>) -> Seq<Element<SymRange>>
    decreases found.len(),
{
    if found.len() == 0 {
        Seq::empty()
    } else {
        with_range(by_depth(found.drop_last()), found.last())
    }
}

/// Whether a list of ranges gets deeper from each range to the next.
pub open spec fn deepening(list: Seq<Element<SymRange>>) -> bool {
    forall|i: int, j: int|
        0 <= i < j < list.len() ==> (#[trigger] list[i]).value.depth < (#[trigger] list[j]).value.depth
}

/// Whether a range of a depth is in a list.
pub open spec fn has_depth(list: Seq<Element<SymRange>>, depth: u16) -> bool {
    exists|k: int| 0 <= k < list.len() && (#[trigger] list[k]).value.depth == depth
}

proof fn lemma_depth_slot(list: Seq<Element<SymRange>>, depth: u16, from: int)
    requires
        0 <= from <= list.len(),
    ensures
        from <= depth_slot(list, depth, from) <= list.len(),
        forall|k: int|
            from <= k < depth_slot(list, depth, from) ==> (#[trigger] list[k]).value.depth < depth,
        depth_slot(list, depth, from) < list.len() ==> list[depth_slot(
            list,
            depth,
            from,
        )].value.depth >= depth,
    decreases list.len() - from,
{
    if from < list.len() && list[from].value.depth < depth {
        lemma_depth_slot(list, depth, from + 1);
    }
}

/// The ranges that were found, ordered by depth, get deeper from each to
/// the next, so that no depth occurs twice; and a depth occurs among them
/// exactly if it occurs among the ranges that were found.
pub proof fn lemma_by_depth(found: Seq<Element<SymRange>>)
    ensures
        deepening(by_depth(found)),
        forall|d: u16| #[trigger] has_depth(by_depth(found), d) == has_depth(found, d),
    decreases found.len(),
{
    if found.len() > 0 {
        let rest = found.drop_last();
        let e = found.last();
        let list = by_depth(rest);
        let after = by_depth(found);
        lemma_by_depth(rest);
        lemma_depth_slot(list, e.value.depth, 0);
        let slot = depth_slot(list, e.value.depth, 0);
        let dup = slot < list.len() && list[slot].value.depth == e.value.depth;
        assert forall|i: int, j: int| 0 <= i < j < after.len() implies (#[trigger] after[i]).value.depth
            < (#[trigger] after[j]).value.depth by {
            if !dup {
                let a = if i < slot {
                    i
                } else {
                    i - 1
                };
                let b = if j < slot {
                    j
                } else {
                    j - 1
                };
                if i != slot && j != slot {
                    assert(after[i] == list[a] && after[j] == list[b]);
                    assert(list[a].value.depth < list[b].value.depth);
                } else if i == slot {
                    assert(after[j] == list[b]);
                    if b > slot {
                        assert(list[slot].value.depth < list[b].value.depth);
                    }
                } else {
                    assert(after[i] == list[a]);
                }
            } else {
                assert(list[i].value.depth < list[j].value.depth);
            }
        }
        assert forall|d: u16| #[trigger] has_depth(after, d) == has_depth(found, d) by {
            assert(has_depth(list, d) == has_depth(rest, d));
            if exists|k: int| 0 <= k < found.len() && (#[trigger] found[k]).value.depth == d {
                let k = choose|k: int| 0 <= k < found.len() && (#[trigger] found[k]).value.depth == d;
                if k < rest.len() {
                    assert(rest[k].value.depth == d);
                    let m = choose|m: int|
                        0 <= m < list.len() && (#[trigger] list[m]).value.depth == d;
                    let at = if dup || m < slot {
                        m
                    } else {
                        m + 1
                    };
                    assert(after[at].value.depth == d);
                } else {
                    assert(after[slot].value.depth == d);
                }
            }
            if exists|k: int| 0 <= k < after.len() && (#[trigger] after[k]).value.depth == d {
                let k = choose|k: int| 0 <= k < after.len() && (#[trigger] after[k]).value.depth == d;
                if !dup && k == slot {
                    assert(found[found.len() - 1].value.depth == d);
                } else {
                    let m = if dup || k < slot {
                        k
                    } else {
                        k - 1
                    };
                    assert(list[m].value.depth == d);
                    let r = choose|r: int|
                        0 <= r < rest.len() && (#[trigger] rest[r]).value.depth == d;
                    assert(found[r].value.depth == d);
                }
            }
        }
    }
}

/// The record for the range at place `k` of the ranges at an address.
///
/// The function is that of the range. For the deepest range, file and line
/// are its own, the line looked up in its line table. For every other
/// range they are the place from which the next deeper one was called.
pub open spec fn native_record(
    raw: Frame,
    tree: &SymTree,
    syms: Seq<Element<SymRange>>,
    k: int,
) -> SymbolizedFrameView {
    let sym = syms[k];
    if k + 1 < syms.len() {
        let next = syms[k + 1];
        SymbolizedFrameView {
            raw,
            func: tree.str_at(sym.value.func),
            file: tree.str_at(next.value.call_file),
            line_no: next.value.call_line,
        }
    } else {
        SymbolizedFrameView {
            raw,
            func: tree.str_at(sym.value.func),
            file: tree.str_at(sym.value.file),
            line_no: line_of(sym.value.line_table@, sym.start, raw.id.addr_or_line),
        }
    }
}

/// The records of a native frame.
///
/// Without a tree for the executable, or without a range at the address,
/// there is one record that knows nothing. Else there is one record for
/// each depth at which a range covers the address, the least deep first,
/// or, where the inlined functions are not asked for, the first of these
/// alone.
pub open spec fn native_records(raw: Frame, tree: Option<&SymTree>, inline_frames: bool) -> Seq<
    SymbolizedFrameView,
> {
    match tree {
        None => seq![unsymbolized_view(raw)],
        Some(t) => {
            let syms = by_depth(t.tree.found(Query::Point(raw.id.addr_or_line)));
            if syms.len() == 0 {
                seq![unsymbolized_view(raw)]
            } else if inline_frames {
                Seq::new(syms.len(), |k: int| native_record(raw, t, syms, k))
            } else {
                seq![native_record(raw, t, syms, 0)]
            }
        },
    }
}

/// The views of a list of records.
pub open spec fn records_view(records: Seq<SymbolizedFrame>) -> Seq<SymbolizedFrameView> {
    Seq::new(records.len(), |k: int| records[k]@)
}

fn order_by_depth<'a>(found: &Vec<&'a Element<SymRange>>) -> (syms: Vec<&'a Element<SymRange>>)
    ensures
        crate::storage::intervaltree::pointed_at(syms@) == by_depth(
            crate::storage::intervaltree::pointed_at(found@),
        ),
{
    let ghost all = crate::storage::intervaltree::pointed_at(found@);
    let mut syms: Vec<&'a Element<SymRange>> = Vec::new();
    let mut i: usize = 0;
    assert(all.take(0) =~= Seq::empty());
    assert(crate::storage::intervaltree::pointed_at(syms@) =~= by_depth(all.take(0)));
    while i < found.len()
        invariant
            i <= found.len(),
            all == crate::storage::intervaltree::pointed_at(found@),
            crate::storage::intervaltree::pointed_at(syms@) == by_depth(all.take(i as int)),
        decreases found.len() - i,
    {
        let e = found[i];
        let ghost list = crate::storage::intervaltree::pointed_at(syms@);
        let mut slot: usize = 0;
        while slot < syms.len() && syms[slot].value.depth < e.value.depth
            invariant
                slot <= syms.len(),
                list == crate::storage::intervaltree::pointed_at(syms@),
                depth_slot(list, e.value.depth, 0) == depth_slot(list, e.value.depth, slot as int),
            decreases syms.len() - slot,
        {
            slot += 1;
        }
        if !(slot < syms.len() && syms[slot].value.depth == e.value.depth) {
            syms.insert(slot, e);
        }
        proof {
            assert(all.take(i + 1).drop_last() =~= all.take(i as int));
            assert(all.take(i + 1).last() == *e);
            assert(crate::storage::intervaltree::pointed_at(syms@) =~= with_range(list, *e));
        }
        i += 1;
    }
    assert(all.take(found.len() as int) =~= all);
    syms
}

/// Symbolizes a native frame from the symbol tree of its executable, where
/// there is one.
pub fn symbolize_native_frame(raw: Frame, tree: Option<&SymTree>, inline_frames: bool) -> (records:
    Vec<SymbolizedFrame>)
    ensures
        records_view(records@) == native_records(raw, tree, inline_frames),
{
    let mut out: Vec<SymbolizedFrame> = Vec::new();
    let t = match tree {
        Some(t) => t,
        None => {
            out.push(SymbolizedFrame::unsymbolized(raw));
            assert(records_view(out@) =~= native_records(raw, None, inline_frames));
            return out;
        },
    };
    let found = t.tree.query_point(raw.id.addr_or_line);
    let syms = order_by_depth(&found);
    let ghost list = crate::storage::intervaltree::pointed_at(syms@);
    if syms.len() == 0 {
        out.push(SymbolizedFrame::unsymbolized(raw));
        assert(records_view(out@) =~= native_records(raw, Some(t), inline_frames));
        return out;
    }
    let mut k: usize = 0;
    while k < syms.len()
        invariant
            k <= syms.len(),
            syms.len() > 0,
            list == crate::storage::intervaltree::pointed_at(syms@),
            tree == Some(t),
            list == by_depth(t.tree.found(Query::Point(raw.id.addr_or_line))),
            !inline_frames ==> k == 0,
            out.len() == k,
            forall|j: int| 0 <= j < k ==> (#[trigger] out[j])@ == native_record(raw, t, list, j),
        decreases syms.len() - k,
    {
        let sym = syms[k];
        assert(*sym == list[k as int]);
        let (file, line) = if k + 1 < syms.len() {
            let next = syms[k + 1];
            assert(*next == list[k + 1]);
            (next.value.call_file, next.value.call_line)
        } else {
            (sym.value.file, sym.value.line_number_for_va(sym.start, raw.id.addr_or_line))
        };
        out.push(
            SymbolizedFrame {
                raw,
                func: owned_str(t.str_by_ref(sym.value.func)),
                file: owned_str(t.str_by_ref(file)),
                line_no: line,
            },
        );
        if !inline_frames {
            assert(records_view(out@) =~= native_records(raw, Some(t), inline_frames));
            return out;
        }
        k += 1;
    }
    assert(records_view(out@) =~= native_records(raw, Some(t), inline_frames));
    out
}

/// Whether a frame is symbolized from the symbol tree of its executable:
/// a regular native frame is, every other frame from the table of frames.
pub open spec fn is_native(frame: Frame) -> bool {
    frame.kind == FrameKind::Regular(InterpKind::Native)
}

/// Symbolize a frame (and its inline children, if they exist).
///
/// `tree` is the symbol tree of the frame's executable and `meta` the
/// frame's record in the table of frames, each where there is one. Of the
/// two only the one that `is_native` asks for is read.
pub fn symbolize_frame(
    frame: Frame,
    inline_frames: bool,
    tree: Option<&SymTree>,
    meta: Option<&FrameMetaData>,
) -> (records: Vec<SymbolizedFrame>)
    ensures
        records_view(records@) == if is_native(frame) {
            native_records(frame, tree, inline_frames)
        } else {
            seq![
                interp_record(
                    frame,
                    match meta {
                        Some(m) => Some(m@),
                        None => None,
                    },
                ),
            ]
        },
{
    if frame.kind == FrameKind::Regular(InterpKind::Native) {
        symbolize_native_frame(frame, tree, inline_frames)
    } else {
        let mut out: Vec<SymbolizedFrame> = Vec::new();
        out.push(symbolize_interp_frame(frame, meta));
        assert(records_view(out@) =~= seq![
            interp_record(
                frame,
                match meta {
                    Some(m) => Some(m@),
                    None => None,
                },
            ),
        ]);
        out
    }
}

} // verus!
