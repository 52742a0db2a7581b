use devfiler::storage::dbtypes::FileId;
use devfiler::storage::symdb::{LineTableEntry, StringRef};
use devfiler::storage::tables::executables::{ExecutableMeta, SymbStatus};
use devfiler::symbolizer::{
    after_local_ingest, build_sym_url, debug_file_id, discover, insert_symbols, needs_symbols,
    status_after, with_status, Controller, Event, FetchOutcome, MetaData, MetaDataError,
    RangeRecord, Record, SymTreeBuilder, SymbolError, SYMB_FREQ, SYMB_MAX_PAR, SYMB_RETRY_FREQ,
};

fn meta(name: &str, symb_status: SymbStatus) -> ExecutableMeta {
    ExecutableMeta { build_id: None, file_name: Some(name.to_string()), symb_status }
}

#[test]
fn failed_attempt_is_retried_after_thirty_seconds() {
    let now = 1_720_000_000;
    let failed = |age| SymbStatus::TempError { last_attempt: now - age };
    assert!(needs_symbols(failed(31), now));
    assert!(!needs_symbols(failed(29), now));
    assert!(!needs_symbols(failed(30), now));
    assert!(!needs_symbols(failed(0), now));
    assert!(needs_symbols(failed(1000), now));
    // an attempt that lies in the future, or a clock near zero
    assert!(!needs_symbols(SymbStatus::TempError { last_attempt: now + 5 }, now));
    assert!(!needs_symbols(SymbStatus::TempError { last_attempt: 0 }, 30));
    assert!(needs_symbols(SymbStatus::TempError { last_attempt: 0 }, 31));
    assert!(!needs_symbols(SymbStatus::TempError { last_attempt: u64::MAX }, u64::MAX));
    assert_eq!((SYMB_FREQ, SYMB_RETRY_FREQ, SYMB_MAX_PAR), (1, 30, 16));
}

#[test]
fn only_what_was_not_tried_or_failed_is_due() {
    assert!(needs_symbols(SymbStatus::NotAttempted, 0));
    assert!(!needs_symbols(SymbStatus::NotPresentGlobally, u64::MAX));
    assert!(!needs_symbols(SymbStatus::Complete { num_symbols: 0 }, u64::MAX));
}

#[test]
fn scan_finds_the_executables_that_are_due() {
    let now = 1000;
    let executables = vec![
        (FileId(1), meta("a", SymbStatus::Complete { num_symbols: 5 })),
        (FileId(2), meta("b", SymbStatus::NotAttempted)),
        (FileId(3), meta("c", SymbStatus::TempError { last_attempt: now - 31 })),
        (FileId(4), meta("d", SymbStatus::TempError { last_attempt: now - 29 })),
        (FileId(5), meta("e", SymbStatus::NotPresentGlobally)),
        (FileId(6), meta("f", SymbStatus::NotAttempted)),
    ];
    assert_eq!(discover(&executables, now), vec![1, 2, 5]);
    assert_eq!(discover(&vec![], now), Vec::<usize>::new());
}

#[test]
fn fetch_leaves_its_status_behind() {
    assert_eq!(
        status_after(FetchOutcome::Complete { num_symbols: 12 }, 5),
        SymbStatus::Complete { num_symbols: 12 }
    );
    assert_eq!(status_after(FetchOutcome::NotPresent, 5), SymbStatus::NotPresentGlobally);
    assert_eq!(status_after(FetchOutcome::Failed, 5), SymbStatus::TempError { last_attempt: 5 });
    let read = ExecutableMeta {
        build_id: Some("id".to_string()),
        file_name: Some("exe".to_string()),
        symb_status: SymbStatus::NotAttempted,
    };
    let written = with_status(read.clone(), SymbStatus::NotPresentGlobally);
    assert_eq!(written.build_id, read.build_id);
    assert_eq!(written.file_name, read.file_name);
    assert_eq!(written.symb_status, SymbStatus::NotPresentGlobally);
}

#[test]
fn local_ingest_updates_or_creates_the_record() {
    let existing = ExecutableMeta {
        build_id: Some("id".to_string()),
        file_name: Some("seen before".to_string()),
        symb_status: SymbStatus::TempError { last_attempt: 1 },
    };
    let updated = after_local_ingest(Some(existing), "dropped".to_string(), 77);
    assert_eq!(updated.build_id.as_deref(), Some("id"));
    assert_eq!(updated.file_name.as_deref(), Some("seen before"));
    assert_eq!(updated.symb_status, SymbStatus::Complete { num_symbols: 77 });
    let created = after_local_ingest(None, "dropped".to_string(), 3);
    assert_eq!(created.build_id, None);
    assert_eq!(created.file_name.as_deref(), Some("dropped"));
    assert_eq!(created.symb_status, SymbStatus::Complete { num_symbols: 3 });
}

#[test]
fn meta_data_answer() {
    let id = FileId(0x0123_4567_89AB_CDEF_0011_2233_4455_6677);
    let body = |version, dwarf: Option<&str>| {
        Some(MetaData { version, dwarf_file_id: dwarf.map(|s| s.to_string()) })
    };
    assert_eq!(debug_file_id(200, body(1, Some(&id.format_es()))), Ok(Some(id)));
    assert_eq!(debug_file_id(299, body(1, Some(&id.format_es()))), Ok(Some(id)));
    assert_eq!(debug_file_id(200, body(1, None)), Ok(None));
    assert_eq!(debug_file_id(404, None), Ok(None));
    assert_eq!(debug_file_id(404, body(2, None)), Ok(None));
    assert_eq!(debug_file_id(500, body(1, None)), Err(MetaDataError::Status));
    assert_eq!(debug_file_id(199, body(1, None)), Err(MetaDataError::Status));
    assert_eq!(debug_file_id(300, body(1, None)), Err(MetaDataError::Status));
    assert_eq!(debug_file_id(200, None), Err(MetaDataError::Decoding));
    assert_eq!(debug_file_id(200, body(2, None)), Err(MetaDataError::Version));
    assert_eq!(debug_file_id(200, body(0, Some(&id.format_es()))), Err(MetaDataError::Version));
    assert_eq!(debug_file_id(200, body(1, Some("no file id"))), Err(MetaDataError::FileId));
    // the hexadecimal form is not read here
    assert_eq!(debug_file_id(200, body(1, Some(&id.format_hex()))), Err(MetaDataError::FileId));
}

#[test]
fn address_of_the_symbol_service() {
    let id = FileId(0);
    assert_eq!(
        build_sym_url("https://symbols.example", id, "metadata.json"),
        "https://symbols.example/AA/AA/AAAAAAAAAAAAAAAAAAAAAA/metadata.json"
    );
    let id = FileId(0x0123_4567_89AB_CDEF_0011_2233_4455_6677);
    let s = id.format_es();
    assert_eq!(
        build_sym_url("base", id, "ranges"),
        format!("base/{}/{}/{}/ranges", &s[0..2], &s[2..4], s)
    );
    assert_eq!(build_sym_url("", FileId(u128::MAX), ""), "/__/__/_____________________w/");
}

fn discovered(id: u128) -> Event {
    Event::Discovered(FileId(id), meta(&format!("exe {}", id), SymbStatus::NotAttempted))
}

#[test]
fn controller_starts_a_fetch_for_what_is_discovered() {
    let mut controller = Controller::new("https://symbols.example");
    let actions = controller.step(discovered(1), 0);
    assert_eq!(actions.status, None);
    assert_eq!(actions.fetch.len(), 1);
    assert_eq!(actions.fetch[0].0, FileId(1));
    assert_eq!(actions.fetch[0].1.file_name.as_deref(), Some("exe 1"));
    assert_eq!(controller.in_flight(), 1);
    assert_eq!(controller.waiting(), 0);
    // what is in flight is not taken in again
    let actions = controller.step(discovered(1), 0);
    assert!(actions.fetch.is_empty());
    assert_eq!(controller.in_flight(), 1);
    assert_eq!(controller.waiting(), 0);
}

#[test]
fn controller_never_runs_more_than_the_limit() {
    let mut controller = Controller::new("x");
    for id in 0..40 {
        let actions = controller.step(discovered(id), 0);
        assert_eq!(actions.fetch.len(), if id < 16 { 1 } else { 0 });
        assert!(controller.in_flight() <= SYMB_MAX_PAR);
    }
    assert_eq!(controller.in_flight(), 16);
    assert_eq!(controller.waiting(), 24);
    // what waits is not listed twice
    controller.step(discovered(20), 0);
    assert_eq!(controller.waiting(), 24);

    // a fetch that ends makes room for the executable that came in last
    let actions = controller.step(Event::Completed(FileId(3), FetchOutcome::Failed), 777);
    assert_eq!(actions.status, Some((FileId(3), SymbStatus::TempError { last_attempt: 777 })));
    assert_eq!(actions.fetch.len(), 1);
    assert_eq!(actions.fetch[0].0, FileId(39));
    assert_eq!(controller.in_flight(), 16);
    assert_eq!(controller.waiting(), 23);

    let actions = controller.step(
        Event::Completed(FileId(0), FetchOutcome::Complete { num_symbols: 9 }),
        778,
    );
    assert_eq!(actions.status, Some((FileId(0), SymbStatus::Complete { num_symbols: 9 })));
    assert_eq!(actions.fetch[0].0, FileId(38));
    let actions = controller.step(Event::Completed(FileId(1), FetchOutcome::NotPresent), 779);
    assert_eq!(actions.status, Some((FileId(1), SymbStatus::NotPresentGlobally)));
    assert_eq!(actions.fetch[0].0, FileId(37));
}

#[test]
fn controller_without_symbol_service_fetches_nothing() {
    let mut controller = Controller::new("");
    for id in 0..5 {
        let actions = controller.step(discovered(id), 0);
        assert!(actions.fetch.is_empty());
        assert_eq!(actions.status, None);
    }
    assert_eq!(controller.in_flight(), 0);
    assert_eq!(controller.waiting(), 0);
}

#[test]
fn completion_of_an_unknown_fetch_still_writes_the_status() {
    let mut controller = Controller::new("x");
    let actions = controller.step(Event::Completed(FileId(5), FetchOutcome::NotPresent), 1);
    assert_eq!(actions.status, Some((FileId(5), SymbStatus::NotPresentGlobally)));
    assert!(actions.fetch.is_empty());
    assert_eq!(controller.in_flight(), 0);
}

fn range(start: u64, end: u64, func: &str, file: Option<&str>, call_file: Option<&str>) -> RangeRecord {
    RangeRecord {
        va_start: start,
        va_end: end,
        func: func.to_string(),
        file: file.map(|s| s.to_string()),
        call_file: call_file.map(|s| s.to_string()),
        call_line: Some(7),
        depth: 1,
        line_table: vec![LineTableEntry { offset: 0, line_number: 3 }],
    }
}

#[test]
fn strings_are_interned_in_the_order_in_which_they_are_named() {
    let tree = insert_symbols(vec![
        Record::Range(range(0x20, 0x30, "g", Some("b.c"), Some("a.c"))),
        Record::Range(range(0x10, 0x20, "f", Some("a.c"), None)),
        Record::Range(range(0x30, 0x40, "g", None, Some("g"))),
    ])
    .unwrap();
    assert_eq!(tree.strings, vec!["g", "b.c", "a.c", "f"]);
    assert_eq!(tree.tree.len(), 3);
    // the tree is ordered by the start of the ranges
    let f = tree.tree.get(0).unwrap();
    assert_eq!((f.start, f.end), (0x10, 0x20));
    assert_eq!(f.value.func, StringRef(3));
    assert_eq!(f.value.file, StringRef(2));
    assert_eq!(f.value.call_file, StringRef::none());
    assert_eq!(f.value.call_line, Some(7));
    assert_eq!(f.value.depth, 1);
    assert_eq!(f.value.line_table, vec![LineTableEntry { offset: 0, line_number: 3 }]);
    let g = tree.tree.get(1).unwrap();
    assert_eq!((g.value.func, g.value.file, g.value.call_file), (StringRef(0), StringRef(1), StringRef(2)));
    let last = tree.tree.get(2).unwrap();
    assert_eq!(
        (last.value.func, last.value.file, last.value.call_file),
        (StringRef(0), StringRef::none(), StringRef(0))
    );
    assert_eq!(tree.tree.query_point(0x15).len(), 1);
}

#[test]
fn stream_with_return_pad_is_turned_down() {
    assert_eq!(
        insert_symbols(vec![
            Record::Range(range(0, 1, "f", None, None)),
            Record::ReturnPad,
            Record::Range(range(1, 2, "g", None, None)),
        ])
        .unwrap_err(),
        SymbolError::ReturnPad
    );
    assert_eq!(insert_symbols(vec![Record::ReturnPad]).unwrap_err(), SymbolError::ReturnPad);
    let empty = insert_symbols(vec![]).unwrap();
    assert!(empty.strings.is_empty());
    assert_eq!(empty.tree.len(), 0);
}

#[test]
fn depth_is_cut_to_sixteen_bits() {
    let mut record = range(0, 1, "f", None, None);
    record.depth = 0x0001_0002;
    let mut builder = SymTreeBuilder::new();
    builder.add_range(record);
    let tree = builder.finish();
    assert_eq!(tree.tree.get(0).unwrap().value.depth, 2);
    assert_eq!(tree.strings, vec!["f"]);
}
