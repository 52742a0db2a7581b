use devfiler::collector::otlp::{
    collect_frame_list, frame_kind_from_name, get_attr, get_str, get_str_opt, hash_lines,
    i64_to_bits, ingest_location, ingest_locations, ingest_request, normalize_timestamp,
    process_sample, sample_frame_list as frames_of_sample, sample_kind, sample_location_indices,
    trace_event, AttributeValue, ExportRequest, Function, KeyValue, Line, Location, Mapping,
    Profile, ProfilesDictionary, Rejection, Sample, ValueType, NS_BOUNDARY,
};
use devfiler::storage::dbtypes::FileId;
use devfiler::storage::table::TableKey;
use devfiler::storage::tables::executables::SymbStatus;
use devfiler::storage::tables::stackframes::FrameId;
use devfiler::storage::tables::stacktraces::{Frame, FrameKind, InterpKind, TraceHash};
use devfiler::storage::tables::traceevents::SampleKind;

fn strings(list: &[&str]) -> Vec<String> {
    list.iter().map(|s| s.to_string()).collect()
}

fn attr(key_strindex: i32, value: &str) -> KeyValue {
    KeyValue { key_strindex, value: Some(AttributeValue::String(value.to_string())) }
}

/// The dictionary of the end-to-end scenario: a native frame in
/// `/lib/foo.so` without a build id.
fn scenario_dictionary() -> ProfilesDictionary {
    ProfilesDictionary {
        string_table: strings(&[
            "",
            "native",
            "/lib/foo.so",
            "profile.frame.type",
            "samples",
            "count",
            "thread.name",
            "app",
        ]),
        attribute_table: vec![attr(3, "native"), attr(6, "app")],
        function_table: vec![],
        mapping_table: vec![Mapping { filename_strindex: 2, attribute_indices: vec![] }],
        location_table: vec![Location {
            mapping_index: 0,
            address: 0x1234,
            line: vec![],
            attribute_indices: vec![0],
        }],
    }
}

fn scenario_request() -> ExportRequest {
    ExportRequest {
        dictionary: Some(scenario_dictionary()),
        profiles: vec![Profile {
            sample_type: vec![ValueType { type_strindex: 4, unit_strindex: 5 }],
            location_indices: vec![0],
            sample: vec![Sample {
                locations_start_index: 0,
                locations_length: 1,
                attribute_indices: vec![1],
                timestamps_unix_nano: vec![1_720_000_000_000_000_000],
            }],
        }],
    }
}

#[test]
fn ingestion_end_to_end() {
    let plan = ingest_request(&scenario_request(), 1_800_000_000).unwrap();

    // the build id is made up from the lines of the location, of which there are none
    let file_id = FileId(xxhash_rust::xxh3::xxh3_64(&[]) as u128);
    assert_eq!(plan.locations.executables.len(), 1);
    let (id, meta) = &plan.locations.executables[0];
    assert_eq!(*id, file_id);
    assert_eq!(meta.build_id, None);
    assert_eq!(meta.file_name.as_deref(), Some("/lib/foo.so"));
    assert_eq!(meta.symb_status, SymbStatus::NotAttempted);
    assert!(plan.locations.frame_meta.is_empty());

    let frame = Frame {
        id: FrameId { file_id, addr_or_line: 0x1234 },
        kind: FrameKind::Regular(InterpKind::Native),
    };
    assert_eq!(plan.locations.frames, vec![frame]);

    assert_eq!(plan.samples.len(), 1);
    assert_eq!(plan.skipped_profiles, 0);
    let sample = &plan.samples[0];
    assert_eq!(sample.frames.len(), 1);
    assert_eq!(sample.frames, vec![frame]);
    assert_eq!(sample.trace_hash, TraceHash::of_frames(&vec![frame]));

    assert_eq!(sample.events.len(), 1);
    let (key, event) = &sample.events[0];
    assert_eq!(key.timestamp, 1_720_000_000);
    assert_eq!(key.kind, SampleKind::OnCPU);
    assert_eq!(event.timestamp, 1_720_000_000);
    assert_eq!(event.comm, "app");
    assert_eq!(event.count, 1);
    assert_eq!(event.trace_hash, sample.trace_hash);
    assert_eq!(event.pod_name, None);
    assert_eq!(event.container_name, None);
}

#[test]
fn sample_frame_list() {
    let loc_mapping = (0..11).collect::<Vec<i32>>();
    let location_indices = vec![4, 9, 6, 2, 7, 4, 4, 2, 0, 1, 2, 3, 5];

    assert_eq!(
        collect_frame_list(&loc_mapping, &location_indices).unwrap(),
        vec![4, 9, 6, 2, 7, 4, 4, 2, 0, 1, 2, 3, 5],
        "location_indices: {{0,1}}"
    );
    assert_eq!(
        collect_frame_list(&loc_mapping, &Vec::<i32>::new()).unwrap(),
        Vec::<i32>::new(),
        "zero-length trace"
    );
    assert_eq!(
        collect_frame_list(&loc_mapping, &location_indices).unwrap(),
        location_indices,
        "trace takes all indices in location_indices"
    );
    assert_eq!(
        collect_frame_list(&loc_mapping, &vec![0i32, 1i32]).unwrap(),
        vec![0, 1],
        "zero-length trace with loc_start out-of-bounds"
    );
}

#[test]
fn sample_frame_list_err() {
    let loc_mapping = (0..11).collect::<Vec<i32>>();
    assert_eq!(
        collect_frame_list(&loc_mapping, &vec![12i32, 13i32]).unwrap_err().message(),
        "location_table: index is out of bounds",
        "trace location indices: {{1,13}}, len(location_table): 2"
    );
}

#[test]
fn frame_list_rejects_negative_and_last_plus_one() {
    let loc_mapping = vec![10u8, 20, 30];
    assert_eq!(collect_frame_list(&loc_mapping, &vec![2, 0]), Ok(vec![30, 10]));
    assert_eq!(
        collect_frame_list(&loc_mapping, &vec![0, 3]),
        Err(Rejection::LocationIndexOutOfBounds)
    );
    assert_eq!(
        collect_frame_list(&loc_mapping, &vec![-1]),
        Err(Rejection::LocationIndexOutOfBounds)
    );
    assert_eq!(
        collect_frame_list(&Vec::<u8>::new(), &vec![0]),
        Err(Rejection::LocationIndexOutOfBounds)
    );
}

#[test]
fn sample_range_is_checked() {
    let indices = vec![5, 6, 7, 8];
    assert_eq!(sample_location_indices(&indices, 1, 2), Ok(vec![6, 7]));
    assert_eq!(sample_location_indices(&indices, 0, 4), Ok(vec![5, 6, 7, 8]));
    assert_eq!(sample_location_indices(&indices, 4, 0), Ok(vec![]));
    assert_eq!(sample_location_indices(&indices, 0, 0), Ok(vec![]));
    for (start, length) in [(3, 2), (5, 0), (-1, 1), (0, -1), (0, 5), (i32::MAX, i32::MAX)] {
        assert_eq!(
            sample_location_indices(&indices, start, length),
            Err(Rejection::LocationRangeOutOfBounds),
            "{} {}",
            start,
            length
        );
    }
}

#[test]
fn sample_frames_check_both_steps() {
    let frame = |addr| Frame {
        id: FrameId { file_id: FileId(1), addr_or_line: addr },
        kind: FrameKind::Regular(InterpKind::Jvm),
    };
    let frames = vec![frame(100), frame(200), frame(300)];
    let profile = Profile {
        sample_type: vec![],
        sample: vec![],
        location_indices: vec![2, 0, 1, 7],
    };
    let sample = |start, length| Sample {
        locations_start_index: start,
        locations_length: length,
        attribute_indices: vec![],
        timestamps_unix_nano: vec![],
    };
    assert_eq!(
        frames_of_sample(&frames, &profile, &sample(0, 3)),
        Ok(vec![frame(300), frame(100), frame(200)])
    );
    assert_eq!(frames_of_sample(&frames, &profile, &sample(1, 1)), Ok(vec![frame(100)]));
    assert_eq!(
        frames_of_sample(&frames, &profile, &sample(2, 2)),
        Err(Rejection::LocationIndexOutOfBounds)
    );
    assert_eq!(
        frames_of_sample(&frames, &profile, &sample(2, 3)),
        Err(Rejection::LocationRangeOutOfBounds)
    );
}

#[test]
fn timestamps_are_brought_to_seconds() {
    assert_eq!(NS_BOUNDARY, 1_704_063_600);
    // nanoseconds above the boundary
    assert_eq!(normalize_timestamp(1_720_000_000_000_000_000), 1_720_000_000);
    assert_eq!(normalize_timestamp(1_720_000_000_999_999_999), 1_720_000_000);
    assert_eq!(normalize_timestamp(1_704_063_600_000_000_001), 1_704_063_600);
    assert_eq!(normalize_timestamp(u64::MAX), 18_446_744_073);
    // milliseconds at the boundary and below
    assert_eq!(normalize_timestamp(1_704_063_600_000_000_000), 1_704_063_600_000_000);
    assert_eq!(normalize_timestamp(1_720_000_000_000), 1_720_000_000);
    assert_eq!(normalize_timestamp(1_720_000_000_999), 1_720_000_000);
    assert_eq!(normalize_timestamp(999), 0);
    assert_eq!(normalize_timestamp(0), 0);
}

#[test]
fn strings_are_looked_up_by_index() {
    let table = strings(&["", "one", "two"]);
    assert_eq!(get_str(&table, 1), Ok("one"));
    assert_eq!(get_str(&table, 2), Ok("two"));
    assert_eq!(get_str(&table, 0), Err(Rejection::FieldNotOptional));
    assert_eq!(get_str(&table, 3), Err(Rejection::StringIndexOutOfBounds));
    assert_eq!(get_str(&table, -1), Err(Rejection::StringIndexOutOfBounds));
    assert_eq!(get_str_opt(&table, 0), Ok(None));
    assert_eq!(get_str_opt(&table, 2), Ok(Some("two")));
    assert_eq!(get_str_opt(&table, 3), Err(Rejection::StringIndexOutOfBounds));
    assert_eq!(get_str(&Vec::new(), 0), Err(Rejection::FieldNotOptional));
}

#[test]
fn attributes_are_looked_up_in_the_order_of_the_indices() {
    let table = strings(&["", "a", "b", "c"]);
    let kvs = vec![
        attr(1, "first a"),
        attr(2, "the b"),
        attr(1, "second a"),
        KeyValue { key_strindex: 3, value: Some(AttributeValue::Other) },
        KeyValue { key_strindex: 3, value: None },
        attr(0, "no key"),
        attr(9, "key out of bounds"),
    ];
    assert_eq!(get_attr(&table, &kvs, &vec![0, 1, 2], "a"), Ok("first a"));
    assert_eq!(get_attr(&table, &kvs, &vec![2, 1, 0], "a"), Ok("second a"));
    assert_eq!(get_attr(&table, &kvs, &vec![0, 1, 2], "b"), Ok("the b"));
    assert_eq!(get_attr(&table, &kvs, &vec![], "a"), Err(Rejection::NoAttributeIndices));
    assert_eq!(get_attr(&table, &kvs, &vec![0, 1], "c"), Err(Rejection::AttributeNotFound));
    assert_eq!(get_attr(&table, &kvs, &vec![3], "c"), Err(Rejection::AttributeNotString));
    assert_eq!(get_attr(&table, &kvs, &vec![4], "c"), Err(Rejection::AttributeNotString));
    assert_eq!(get_attr(&table, &kvs, &vec![7], "a"), Err(Rejection::AttributeIndexOutOfBounds));
    assert_eq!(get_attr(&table, &kvs, &vec![-1], "a"), Err(Rejection::AttributeIndexOutOfBounds));
    assert_eq!(get_attr(&table, &kvs, &vec![5, 0], "a"), Err(Rejection::FieldNotOptional));
    assert_eq!(get_attr(&table, &kvs, &vec![6, 0], "a"), Err(Rejection::StringIndexOutOfBounds));
    // a broken attribute behind the one that is looked for does no harm
    assert_eq!(get_attr(&table, &kvs, &vec![0, 6], "a"), Ok("first a"));
}

#[test]
fn frame_types_are_mapped_to_kinds() {
    let known = [
        ("native", InterpKind::Native),
        ("kernel", InterpKind::Kernel),
        ("jvm", InterpKind::Jvm),
        ("perl", InterpKind::Perl),
        ("cpython", InterpKind::Python),
        ("php", InterpKind::Php),
        ("phpjit", InterpKind::PhpJit),
        ("ruby", InterpKind::Ruby),
        ("dotnet", InterpKind::DotNet),
        ("v8js", InterpKind::Js),
        ("beam", InterpKind::Beam),
        ("go", InterpKind::Go),
    ];
    for (name, kind) in known {
        assert_eq!(frame_kind_from_name(name), Some(FrameKind::Regular(kind)), "{}", name);
    }
    assert_eq!(frame_kind_from_name("abort-marker"), Some(FrameKind::Abort));
    for name in ["", "Native", "python", "js", "abort", "native "] {
        assert_eq!(frame_kind_from_name(name), None, "{}", name);
    }
}

fn dictionary_with(location: Location, mapping: Mapping) -> ProfilesDictionary {
    ProfilesDictionary {
        string_table: strings(&[
            "",
            "profile.frame.type",
            "process.executable.build_id.htlhash",
            "process.executable.build_id.profiling",
            "main",
            "main.py",
            "/usr/bin/python3",
        ]),
        attribute_table: vec![
            attr(1, "cpython"),
            attr(1, "native"),
            attr(1, "abort-marker"),
            attr(1, "fortran"),
            attr(2, "0000000000000000000000000000beef"),
            attr(3, "AAAAAAAAAAAAAAAAAAAAAQ"),
            attr(2, "not a file id"),
        ],
        function_table: vec![
            Function { name_strindex: 0, filename_strindex: 0 },
            Function { name_strindex: 4, filename_strindex: 5 },
            Function { name_strindex: 99, filename_strindex: 5 },
        ],
        mapping_table: vec![mapping],
        location_table: vec![location],
    }
}

fn python_location() -> Location {
    Location {
        mapping_index: 0,
        address: 17,
        line: vec![
            Line { function_index: 1, line: 42, column: 0 },
            Line { function_index: 2, line: 43, column: 0 },
        ],
        attribute_indices: vec![0],
    }
}

fn named_mapping(attribute: i32) -> Mapping {
    Mapping { filename_strindex: 6, attribute_indices: vec![attribute] }
}

#[test]
fn interpreted_frame_gets_meta_data_from_its_first_line() {
    let dic = dictionary_with(python_location(), named_mapping(4));
    let plan = ingest_locations(&dic).unwrap();
    let id = FrameId { file_id: FileId(0xBEEF), addr_or_line: 17 };
    assert_eq!(
        plan.frames,
        vec![Frame { id, kind: FrameKind::Regular(InterpKind::Python) }]
    );
    assert!(plan.executables.is_empty());
    assert_eq!(plan.frame_meta.len(), 1);
    assert_eq!(plan.frame_meta[0].0, id);
    let meta = &plan.frame_meta[0].1;
    assert_eq!(meta.function_name.as_deref(), Some("main"));
    assert_eq!(meta.file_name.as_deref(), Some("main.py"));
    assert_eq!(meta.line_number, 42);
    assert_eq!(meta.function_offset, 0);
}

#[test]
fn legacy_build_id_is_read_where_the_other_is_missing() {
    let dic = dictionary_with(python_location(), named_mapping(5));
    let plan = ingest_locations(&dic).unwrap();
    assert_eq!(plan.frames[0].id.file_id, FileId(1));
}

#[test]
fn native_frame_records_the_executable_and_no_meta_data() {
    let mut location = python_location();
    location.attribute_indices = vec![1];
    let dic = dictionary_with(location, named_mapping(4));
    let plan = ingest_locations(&dic).unwrap();
    assert_eq!(plan.frames[0].kind, FrameKind::Regular(InterpKind::Native));
    assert!(plan.frame_meta.is_empty());
    assert_eq!(plan.executables.len(), 1);
    assert_eq!(plan.executables[0].0, FileId(0xBEEF));
    assert_eq!(plan.executables[0].1.file_name.as_deref(), Some("/usr/bin/python3"));
    assert_eq!(plan.executables[0].1.symb_status, SymbStatus::NotAttempted);
}

#[test]
fn abort_marker_is_booked_on_the_synthetic_executable() {
    let mut location = python_location();
    location.attribute_indices = vec![2];
    location.mapping_index = 55; // no mapping is looked at
    location.address = 4711;
    let dic = dictionary_with(location, named_mapping(6));
    let plan = ingest_locations(&dic).unwrap();
    assert_eq!(
        plan.frames,
        vec![Frame {
            id: FrameId { file_id: FileId::from_parts(1, 1), addr_or_line: 4711 },
            kind: FrameKind::Abort,
        }]
    );
    assert!(plan.executables.is_empty());
    assert!(plan.frame_meta.is_empty());
}

#[test]
fn locations_reject_the_request() {
    let reject = |location: Location, mapping: Mapping| {
        ingest_locations(&dictionary_with(location, mapping)).unwrap_err()
    };
    let mut location = python_location();
    location.attribute_indices = vec![3];
    assert_eq!(reject(location, named_mapping(4)), Rejection::UnsupportedFrameKind);

    let mut location = python_location();
    location.attribute_indices = vec![];
    assert_eq!(reject(location, named_mapping(4)), Rejection::NoAttributeIndices);

    let mut location = python_location();
    location.attribute_indices = vec![4];
    assert_eq!(reject(location, named_mapping(4)), Rejection::AttributeNotFound);

    let mut location = python_location();
    location.mapping_index = 1;
    assert_eq!(reject(location, named_mapping(4)), Rejection::MappingIndexOutOfBounds);

    let mut location = python_location();
    location.mapping_index = -1;
    assert_eq!(reject(location, named_mapping(4)), Rejection::MappingIndexOutOfBounds);

    assert_eq!(reject(python_location(), named_mapping(6)), Rejection::UnparsableFileId);
    assert_eq!(reject(python_location(), named_mapping(0)), Rejection::AttributeNotFound);

    let mut location = python_location();
    location.line[0].function_index = 3;
    assert_eq!(reject(location, named_mapping(4)), Rejection::FunctionIndexOutOfBounds);

    let mut location = python_location();
    location.line[0].function_index = 2;
    assert_eq!(reject(location, named_mapping(4)), Rejection::StringIndexOutOfBounds);

    let mut location = python_location();
    location.attribute_indices = vec![1];
    let mapping = Mapping { filename_strindex: 77, attribute_indices: vec![4] };
    assert_eq!(reject(location, mapping), Rejection::StringIndexOutOfBounds);
}

#[test]
fn first_line_without_function_gives_no_meta_data() {
    let mut location = python_location();
    location.line[0].function_index = 0;
    let plan = ingest_locations(&dictionary_with(location, named_mapping(4))).unwrap();
    assert!(plan.frame_meta.is_empty());

    let mut location = python_location();
    location.line = vec![];
    let plan = ingest_locations(&dictionary_with(location, named_mapping(4))).unwrap();
    assert!(plan.frame_meta.is_empty());
    assert_eq!(plan.frames.len(), 1);
}

#[test]
fn build_id_is_made_up_from_the_lines() {
    let location = python_location();
    let mapping = Mapping { filename_strindex: 6, attribute_indices: vec![] };
    let dic = dictionary_with(location.clone(), mapping);

    let mut bytes = Vec::new();
    bytes.extend_from_slice(b"main");
    bytes.extend_from_slice(b"main.py");
    bytes.extend_from_slice(&42i64.to_le_bytes());
    bytes.extend_from_slice(&0i64.to_le_bytes());
    // the name of the second function cannot be looked up, its file can
    bytes.extend_from_slice(b"main.py");
    bytes.extend_from_slice(&43i64.to_le_bytes());
    bytes.extend_from_slice(&0i64.to_le_bytes());
    let digest = xxhash_rust::xxh3::xxh3_64(&bytes);

    assert_eq!(hash_lines(&dic, &location.line), digest);
    let ingested = ingest_location(&dic, &location).unwrap();
    assert_eq!(ingested.frame.id.file_id, FileId(digest as u128));
    assert_eq!(
        FileId::try_parse_hex(&format!("{:016x}", digest)),
        Some(ingested.frame.id.file_id)
    );
}

#[test]
fn signed_numbers_are_hashed_by_their_bits() {
    assert_eq!(i64_to_bits(0), 0);
    assert_eq!(i64_to_bits(42), 42);
    assert_eq!(i64_to_bits(i64::MAX), i64::MAX as u64);
    assert_eq!(i64_to_bits(-1), u64::MAX);
    assert_eq!(i64_to_bits(i64::MIN), 1 << 63);
    assert_eq!(i64_to_bits(-42), (-42i64) as u64);
}

#[test]
fn sample_kinds_by_what_is_counted() {
    let dic = ProfilesDictionary {
        string_table: strings(&["", "samples", "count", "events", "nanoseconds", "bytes"]),
        attribute_table: vec![],
        function_table: vec![],
        mapping_table: vec![],
        location_table: vec![],
    };
    let kind = |t, u| sample_kind(&dic, &ValueType { type_strindex: t, unit_strindex: u });
    assert_eq!(kind(1, 2), Ok(SampleKind::OnCPU));
    assert_eq!(kind(3, 4), Ok(SampleKind::OffCPU));
    assert_eq!(kind(3, 2), Ok(SampleKind::Unknown));
    assert_eq!(kind(1, 4), Ok(SampleKind::Unknown));
    assert_eq!(kind(5, 5), Ok(SampleKind::Unknown));
    assert_eq!(kind(0, 2), Err(Rejection::FieldNotOptional));
    assert_eq!(kind(1, 0), Err(Rejection::FieldNotOptional));
    assert_eq!(kind(1, 6), Err(Rejection::StringIndexOutOfBounds));
}

#[test]
fn sample_without_timestamp_is_booked_on_the_time_of_arrival() {
    let dic = scenario_dictionary();
    let sample = Sample {
        locations_start_index: 0,
        locations_length: 0,
        attribute_indices: vec![],
        timestamps_unix_nano: vec![],
    };
    let sample_type = ValueType { type_strindex: 4, unit_strindex: 5 };
    let plan = process_sample(&dic, &sample_type, &sample, vec![], 1_720_000_000_000).unwrap();
    assert_eq!(plan.events.len(), 1);
    assert_eq!(plan.events[0].0.timestamp, 1_720_000_000);
    assert_eq!(plan.events[0].1.comm, "");
    assert_eq!(plan.trace_hash, TraceHash::of_frames(&vec![]));
}

#[test]
fn one_event_for_each_timestamp() {
    let dic = scenario_dictionary();
    let sample = Sample {
        locations_start_index: 0,
        locations_length: 0,
        attribute_indices: vec![0],
        timestamps_unix_nano: vec![
            1_720_000_001_000_000_000,
            1_720_000_002_000,
            1_720_000_003_500_000_000,
        ],
    };
    let sample_type = ValueType { type_strindex: 4, unit_strindex: 5 };
    let plan = process_sample(&dic, &sample_type, &sample, vec![], 7).unwrap();
    let stamps: Vec<u64> = plan.events.iter().map(|e| e.0.timestamp).collect();
    assert_eq!(stamps, vec![1_720_000_001, 1_720_000_002, 1_720_000_003]);
    for (key, event) in &plan.events {
        assert_eq!(key.kind, SampleKind::OnCPU);
        assert_eq!(event.timestamp, key.timestamp);
        assert_eq!(event.count, 1);
        // the attribute list names no thread
        assert_eq!(event.comm, "");
    }
}

#[test]
fn trace_event_with_a_chosen_id() {
    let hash = TraceHash(99);
    let (key_a, event_a) = trace_event(10, SampleKind::OnCPU, 5, hash, "worker");
    let (key_b, _) = trace_event(10, SampleKind::OffCPU, 5, hash, "worker");
    assert_eq!(key_a.id, 5);
    assert_eq!(key_a.timestamp, 10);
    assert_eq!(event_a.comm, "worker");
    assert_eq!(event_a.trace_hash, hash);
    assert_eq!(event_a.count, 1);
    // one id, two kinds: the keys stay apart
    assert_ne!(key_a.into_raw(), key_b.into_raw());
}

#[test]
fn request_without_dictionary_is_rejected() {
    let mut request = scenario_request();
    request.dictionary = None;
    assert_eq!(ingest_request(&request, 0), Err(Rejection::MissingDictionary));
    assert_eq!(Rejection::MissingDictionary.message(), "ProfilesDictionary is required");
}

#[test]
fn profile_without_one_sample_type_is_passed_over() {
    let mut request = scenario_request();
    let good = request.profiles[0].clone();
    let mut none = good.clone();
    none.sample_type = vec![];
    // what is passed over rejects nothing
    none.sample[0].locations_length = 99;
    let mut two = good.clone();
    two.sample_type.push(ValueType { type_strindex: 4, unit_strindex: 5 });
    request.profiles = vec![none, good.clone(), two, good];
    let plan = ingest_request(&request, 0).unwrap();
    assert_eq!(plan.skipped_profiles, 2);
    assert_eq!(plan.samples.len(), 2);
}

#[test]
fn first_bad_sample_rejects_the_request() {
    let mut request = scenario_request();
    request.profiles[0].sample.push(Sample {
        locations_start_index: 0,
        locations_length: 2,
        attribute_indices: vec![],
        timestamps_unix_nano: vec![],
    });
    assert_eq!(ingest_request(&request, 0), Err(Rejection::LocationRangeOutOfBounds));

    let mut request = scenario_request();
    request.profiles[0].location_indices = vec![1];
    assert_eq!(ingest_request(&request, 0), Err(Rejection::LocationIndexOutOfBounds));

    let mut request = scenario_request();
    request.profiles[0].sample_type[0].unit_strindex = 0;
    assert_eq!(ingest_request(&request, 0), Err(Rejection::FieldNotOptional));

    let mut request = scenario_request();
    request.dictionary.as_mut().unwrap().location_table[0].attribute_indices = vec![9];
    assert_eq!(ingest_request(&request, 0), Err(Rejection::AttributeIndexOutOfBounds));
}

#[test]
fn every_rejection_has_words() {
    let all = [
        Rejection::MissingDictionary,
        Rejection::FieldNotOptional,
        Rejection::StringIndexOutOfBounds,
        Rejection::NoAttributeIndices,
        Rejection::AttributeIndexOutOfBounds,
        Rejection::AttributeNotString,
        Rejection::AttributeNotFound,
        Rejection::UnsupportedFrameKind,
        Rejection::MappingIndexOutOfBounds,
        Rejection::UnparsableFileId,
        Rejection::FunctionIndexOutOfBounds,
        Rejection::LocationRangeOutOfBounds,
        Rejection::LocationIndexOutOfBounds,
    ];
    for (i, a) in all.iter().enumerate() {
        assert!(!a.message().is_empty());
        for b in &all[i + 1..] {
            assert_ne!(a.message(), b.message());
        }
    }
}
