use devfiler::storage::dbtypes::FileId;
use devfiler::storage::intervaltree::{Element, Tree};
use devfiler::storage::symdb::{
    file_name, symbolize_frame, symbolize_interp_frame, symbolize_native_frame, LineTableEntry,
    StringRef, SymRange, SymTree, SymbolizedFrame,
};
use devfiler::storage::tables::stackframes::{FrameId, FrameMetaData};
use devfiler::storage::tables::stacktraces::{Frame, FrameKind, InterpKind};

fn line(offset: u32, line_number: u32) -> LineTableEntry {
    LineTableEntry { offset, line_number }
}

fn range(func: u32, file: u32, call_file: u32, call_line: Option<u32>, depth: u16) -> SymRange {
    SymRange {
        func: StringRef(func),
        file: StringRef(file),
        call_file: StringRef(call_file),
        call_line,
        depth,
        line_table: vec![line(0, 10), line(4, 11), line(8, 12)],
    }
}

fn native(addr: u64) -> Frame {
    Frame {
        id: FrameId { file_id: FileId(1), addr_or_line: addr },
        kind: FrameKind::Regular(InterpKind::Native),
    }
}

fn tree() -> SymTree {
    SymTree {
        strings: ["outer", "outer.c", "inner", "inner.h", "innermost", "deep.h"]
            .iter()
            .map(|s| s.to_string())
            .collect(),
        tree: Tree::from_iter(vec![
            // innermost: inlined into inner at inner.h:77
            Element { start: 0x1008, end: 0x100C, value: range(4, 5, 3, Some(77), 2) },
            // outer function
            Element { start: 0x1000, end: 0x1100, value: range(0, 1, u32::MAX, None, 0) },
            // inner: inlined into outer at outer.c:33
            Element { start: 0x1004, end: 0x1010, value: range(2, 3, 1, Some(33), 1) },
            // another function
            Element { start: 0x2000, end: 0x2010, value: range(2, u32::MAX, u32::MAX, None, 0) },
        ]),
    }
}

fn record(raw: Frame, func: &str, file: Option<&str>, line_no: Option<u32>) -> SymbolizedFrame {
    SymbolizedFrame {
        raw,
        func: Some(func.to_string()),
        file: file.map(|f| f.to_string()),
        line_no,
    }
}

#[test]
fn line_is_that_of_the_last_entry_at_or_before_the_address() {
    let sym = range(0, 0, 0, None, 0);
    assert_eq!(sym.line_number_for_va(0x100, 0x100), Some(10));
    assert_eq!(sym.line_number_for_va(0x100, 0x103), Some(10));
    assert_eq!(sym.line_number_for_va(0x100, 0x104), Some(11));
    assert_eq!(sym.line_number_for_va(0x100, 0x107), Some(11));
    assert_eq!(sym.line_number_for_va(0x100, 0x108), Some(12));
    assert_eq!(sym.line_number_for_va(0x100, u64::MAX), Some(12));
    // before the start of the range
    assert_eq!(sym.line_number_for_va(0x100, 0xFF), None);
}

#[test]
fn line_table_without_an_entry_at_the_start() {
    let mut sym = range(0, 0, 0, None, 0);
    sym.line_table = vec![line(4, 11)];
    assert_eq!(sym.line_number_for_va(0, 3), None);
    assert_eq!(sym.line_number_for_va(0, 4), Some(11));
    sym.line_table = vec![];
    assert_eq!(sym.line_number_for_va(0, 4), None);
    // offsets above 32 bits lie behind every entry
    sym.line_table = vec![line(u32::MAX, 5)];
    assert_eq!(sym.line_number_for_va(0, u32::MAX as u64 - 1), None);
    assert_eq!(sym.line_number_for_va(0, u32::MAX as u64), Some(5));
    assert_eq!(sym.line_number_for_va(0, 1 << 40), Some(5));
}

#[test]
fn strings_are_named_by_their_place() {
    let tree = tree();
    assert_eq!(tree.str_by_ref(StringRef(0)), Some("outer"));
    assert_eq!(tree.str_by_ref(StringRef(5)), Some("deep.h"));
    assert_eq!(tree.str_by_ref(StringRef(6)), None);
    assert_eq!(tree.str_by_ref(StringRef::none()), None);
    assert_eq!(StringRef::none(), StringRef(u32::MAX));
}

#[test]
fn native_frame_without_tree_or_range_is_unsymbolized() {
    let raw = native(0x1000);
    assert_eq!(symbolize_native_frame(raw, None, true), vec![SymbolizedFrame::unsymbolized(raw)]);
    let tree = tree();
    let raw = native(0x3000);
    assert_eq!(
        symbolize_native_frame(raw, Some(&tree), true),
        vec![SymbolizedFrame::unsymbolized(raw)]
    );
    let unknown = SymbolizedFrame::unsymbolized(raw);
    assert_eq!(unknown.raw, raw);
    assert_eq!((unknown.func, unknown.file, unknown.line_no), (None, None, None));
}

#[test]
fn native_frame_in_one_function() {
    let tree = tree();
    let raw = native(0x1080);
    // line of the last entry at or before offset 0x80
    assert_eq!(
        symbolize_native_frame(raw, Some(&tree), true),
        vec![record(raw, "outer", Some("outer.c"), Some(12))]
    );
    let raw = native(0x2004);
    assert_eq!(
        symbolize_native_frame(raw, Some(&tree), true),
        vec![SymbolizedFrame {
            raw,
            func: Some("inner".to_string()),
            file: None,
            line_no: Some(11),
        }]
    );
}

#[test]
fn native_frame_with_inlined_functions() {
    let tree = tree();
    let raw = native(0x1009);
    assert_eq!(
        symbolize_native_frame(raw, Some(&tree), true),
        vec![
            // where inner was called
            record(raw, "outer", Some("outer.c"), Some(33)),
            // where innermost was called
            record(raw, "inner", Some("inner.h"), Some(77)),
            // the line of the address itself, at offset 1 of the deepest range
            record(raw, "innermost", Some("deep.h"), Some(10)),
        ]
    );
    // without the inlined functions only the first record is given
    assert_eq!(
        symbolize_native_frame(raw, Some(&tree), false),
        vec![record(raw, "outer", Some("outer.c"), Some(33))]
    );
    let raw = native(0x1004);
    assert_eq!(
        symbolize_native_frame(raw, Some(&tree), true),
        vec![
            record(raw, "outer", Some("outer.c"), Some(33)),
            record(raw, "inner", Some("inner.h"), Some(10)),
        ]
    );
}

#[test]
fn of_two_ranges_of_one_depth_one_is_kept() {
    let tree = SymTree {
        strings: vec!["a".to_string(), "b".to_string()],
        tree: Tree::from_iter(vec![
            Element { start: 0, end: 10, value: range(0, 0, 0, None, 0) },
            Element { start: 0, end: 10, value: range(1, 1, 1, None, 0) },
        ]),
    };
    let records = symbolize_native_frame(native(5), Some(&tree), true);
    assert_eq!(records.len(), 1);
    assert!(records[0].func.as_deref() == Some("a") || records[0].func.as_deref() == Some("b"));
}

#[test]
fn interpreted_frame_from_its_meta_data() {
    let raw = Frame {
        id: FrameId { file_id: FileId(9), addr_or_line: 3 },
        kind: FrameKind::Regular(InterpKind::Python),
    };
    let meta = FrameMetaData {
        file_name: Some("main.py".to_string()),
        function_name: Some("main".to_string()),
        line_number: 42,
        function_offset: 0,
    };
    assert_eq!(
        symbolize_interp_frame(raw, Some(&meta)),
        record(raw, "main", Some("main.py"), Some(42))
    );
    let no_line = FrameMetaData { line_number: 0, ..meta.clone() };
    assert_eq!(
        symbolize_interp_frame(raw, Some(&no_line)),
        record(raw, "main", Some("main.py"), None)
    );
    assert_eq!(symbolize_interp_frame(raw, None), SymbolizedFrame::unsymbolized(raw));
    assert_eq!(FrameMetaData::default().line_number, 0);
    assert_eq!(FrameMetaData::default().function_name, None);
}

#[test]
fn frames_are_symbolized_by_their_kind() {
    let tree = tree();
    let meta = FrameMetaData {
        file_name: None,
        function_name: Some("f".to_string()),
        line_number: 1,
        function_offset: 0,
    };
    let raw = native(0x1080);
    assert_eq!(
        symbolize_frame(raw, true, Some(&tree), Some(&meta)),
        vec![record(raw, "outer", Some("outer.c"), Some(12))]
    );
    for kind in [
        FrameKind::Regular(InterpKind::Jvm),
        FrameKind::Error(InterpKind::Native),
        FrameKind::Abort,
        FrameKind::Unknown(0),
    ] {
        let raw = Frame { id: raw.id, kind };
        assert_eq!(
            symbolize_frame(raw, true, Some(&tree), Some(&meta)),
            vec![record(raw, "f", None, Some(1))]
        );
        assert_eq!(
            symbolize_frame(raw, true, Some(&tree), None),
            vec![SymbolizedFrame::unsymbolized(raw)]
        );
    }
}

#[test]
fn symbol_files_are_named_by_the_file_id() {
    assert_eq!(file_name(FileId(0xABC), false), "00000000000000000000000000000abc.symtree");
    assert_eq!(file_name(FileId(0xABC), true), "00000000000000000000000000000abc.symtree.temp");
    assert_eq!(file_name(FileId(u128::MAX), false), "ffffffffffffffffffffffffffffffff.symtree");
}
