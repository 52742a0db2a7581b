use devfiler::queries::flamegraph::{
    build_flame_graph, decimal, flame_frame, label, FlameFrame, FlameGraphNode,
};
use devfiler::storage::dbtypes::FileId;
use devfiler::storage::errorspec::{ErrorSpec, ErrorSpecs};
use devfiler::storage::symdb::SymbolizedFrame;
use devfiler::storage::tables::stackframes::FrameId;
use devfiler::storage::tables::stacktraces::{Frame, FrameKind, InterpKind};

const NATIVE: FrameKind = FrameKind::Regular(InterpKind::Native);
const PYTHON: FrameKind = FrameKind::Regular(InterpKind::Python);

fn raw(file: u128, addr: u64, kind: FrameKind) -> Frame {
    Frame { id: FrameId { file_id: FileId(file), addr_or_line: addr }, kind }
}

fn record(raw: Frame, func: Option<&str>, file: Option<&str>, line_no: Option<u32>) -> SymbolizedFrame {
    SymbolizedFrame {
        raw,
        func: func.map(|s| s.to_string()),
        file: file.map(|s| s.to_string()),
        line_no,
    }
}

fn frame(file: u128, addr: u64, texts: &[&str]) -> FlameFrame {
    FlameFrame {
        frame: raw(file, addr, NATIVE),
        texts: texts.iter().map(|s| s.to_string()).collect(),
    }
}

/// The nodes of a graph as lines: the depth, the weight and the text.
fn lines(node: &FlameGraphNode, depth: usize, out: &mut Vec<String>) {
    out.push(format!("{}{} {} skip={}", "  ".repeat(depth), node.weight, node.text, node.inline_skip));
    for child in &node.children {
        lines(child, depth + 1, out);
    }
}

fn shape(node: &FlameGraphNode) -> Vec<String> {
    let mut out = Vec::new();
    lines(node, 0, &mut out);
    out
}

#[test]
fn numbers_in_decimal_digits() {
    for n in [0u64, 1, 9, 10, 11, 99, 100, 1234567890, u32::MAX as u64, u64::MAX] {
        assert_eq!(decimal(n), n.to_string());
    }
}

#[test]
fn text_of_a_symbolized_frame() {
    let native = raw(0xABC, 0x1234, NATIVE);
    assert_eq!(
        label(&record(native, Some("main"), Some("main.c"), Some(42)), Some("a.out")),
        "a.out: main in main.c:42"
    );
    assert_eq!(
        label(&record(native, Some("main"), None, Some(42)), Some("a.out")),
        "a.out: main:42"
    );
    assert_eq!(
        label(&record(native, Some("main"), Some("main.c"), None), None),
        "00000000000000000000000000000abc: main in main.c"
    );
    assert_eq!(
        label(&record(native, None, Some("ignored"), Some(1)), Some("a.out")),
        "a.out+0x0000000000001234"
    );
    assert_eq!(
        label(&record(native, None, None, None), None),
        "00000000000000000000000000000abc+0x0000000000001234"
    );
    let python = raw(0xABC, 7, PYTHON);
    assert_eq!(
        label(&record(python, Some("run"), Some("app.py"), Some(3)), Some("python3")),
        "run in app.py:3"
    );
    assert_eq!(label(&record(python, None, None, None), None), "+0x0000000000000007");
    let failed = raw(0xABC, 0x10, FrameKind::Error(InterpKind::Native));
    assert_eq!(label(&record(failed, Some("f"), None, None), Some("exe")), "exe: f");
}

fn errors() -> ErrorSpecs {
    ErrorSpecs::new(Some(vec![ErrorSpec {
        id: 4001,
        name: "native_zero_pc".to_string(),
        description: String::new(),
        obsolete: false,
    }]))
}

#[test]
fn texts_of_the_nodes_of_a_frame() {
    let native = raw(1, 0x10, NATIVE);
    let records = vec![
        record(native, Some("outer"), Some("o.c"), Some(1)),
        record(native, Some("inner"), None, None),
    ];
    let f = flame_frame(native, &records, Some("exe"), &errors());
    assert_eq!(f.frame, native);
    assert_eq!(f.texts, vec!["exe: outer in o.c:1 [Native]", "exe: inner [Native] [Inline]"]);

    let failed = raw(1, 0x10, FrameKind::Error(InterpKind::Jvm));
    let f = flame_frame(failed, &vec![record(failed, Some("run"), None, None)], None, &errors());
    assert_eq!(f.texts, vec!["run [JVM]"]);

    let unknown = raw(1, 0x10, FrameKind::Unknown(0));
    let f = flame_frame(unknown, &vec![record(unknown, None, None, None)], None, &errors());
    assert_eq!(f.texts, vec!["+0x0000000000000010"]);

    let abort = raw(1, 4001, FrameKind::Abort);
    let f = flame_frame(abort, &vec![], None, &errors());
    assert_eq!(f.texts, vec!["<unwinding aborted: native_zero_pc>"]);
    let abort = raw(1, 77, FrameKind::Abort);
    let f = flame_frame(abort, &vec![record(abort, Some("ignored"), None, None)], None, &errors());
    assert_eq!(f.texts, vec!["<unwinding aborted: error code 77>"]);

    assert!(flame_frame(native, &vec![], None, &errors()).texts.is_empty());
}

#[test]
fn traces_share_the_nodes_of_their_first_frames() {
    let mut root = FlameGraphNode::root();
    // leaf first: c is called by b, which is called by a
    root.insert_trace(&vec![frame(1, 3, &["c"]), frame(1, 2, &["b"]), frame(1, 1, &["a"])], 10);
    root.insert_trace(&vec![frame(1, 4, &["d"]), frame(1, 2, &["b"]), frame(1, 1, &["a"])], 5);
    root.insert_trace(&vec![frame(1, 1, &["a"])], 1);
    root.insert_trace(&vec![frame(1, 9, &["z"])], 2);
    assert_eq!(
        shape(&root),
        vec![
            "18 100% of all CPU cycles skip=0",
            "  16 a skip=0",
            "    15 b skip=0",
            "      10 c skip=0",
            "      5 d skip=0",
            "  2 z skip=0",
        ]
    );
    assert_eq!(root.weight_children(), 18);
    assert_eq!(root.weight_self(), 0);
    assert_eq!(root.children[0].weight_children(), 15);
    assert_eq!(root.children[0].weight_self(), 1);
    assert_eq!(root.children[0].children[0].children[0].weight_self(), 10);
}

#[test]
fn inlined_functions_are_a_chain_of_nodes() {
    let mut root = FlameGraphNode::root();
    let inlined = frame(1, 2, &["outer", "middle", "inner"]);
    root.insert_trace(&vec![frame(1, 3, &["leaf"]), inlined.clone(), frame(1, 1, &["main"])], 4);
    assert_eq!(
        shape(&root),
        vec![
            "4 100% of all CPU cycles skip=0",
            "  4 main skip=0",
            "    4 outer skip=2",
            "      4 middle skip=0",
            "        4 inner skip=0",
            "          4 leaf skip=0",
        ]
    );
    // the same frame again: the whole chain grows, and what is below it hangs at its end
    root.insert_trace(&vec![frame(1, 5, &["other"]), inlined, frame(1, 1, &["main"])], 3);
    assert_eq!(
        shape(&root),
        vec![
            "7 100% of all CPU cycles skip=0",
            "  7 main skip=0",
            "    7 outer skip=2",
            "      7 middle skip=0",
            "        7 inner skip=0",
            "          4 leaf skip=0",
            "          3 other skip=0",
        ]
    );
    for node in [&root.children[0].children[0], &root.children[0].children[0].children[0]] {
        assert_eq!(node.kind, Some(NATIVE));
        assert_eq!(node.id, FrameId { file_id: FileId(1), addr_or_line: 2 });
    }
}

#[test]
fn frame_without_text_is_passed_over() {
    let mut root = FlameGraphNode::root();
    root.insert_trace(&vec![frame(1, 3, &["c"]), frame(1, 2, &[]), frame(1, 1, &["a"])], 1);
    assert_eq!(
        shape(&root),
        vec!["1 100% of all CPU cycles skip=0", "  1 a skip=0", "    1 c skip=0"]
    );
    root.insert_trace(&vec![], 1);
    assert_eq!(root.weight, 2);
    assert_eq!(root.children.len(), 1);
}

#[test]
fn weights_hold_at_the_upper_end() {
    let mut root = FlameGraphNode::root();
    root.insert_trace(&vec![frame(1, 1, &["a"])], u64::MAX - 1);
    root.insert_trace(&vec![frame(1, 1, &["a"])], 5);
    assert_eq!(root.weight, u64::MAX);
    assert_eq!(root.children[0].weight, u64::MAX);
    root.insert_trace(&vec![frame(1, 2, &["b"])], 7);
    assert_eq!(root.weight_children(), u64::MAX);
    assert_eq!(root.weight_self(), 0);
}

#[test]
fn graph_is_grouped_by_thread_and_sorted() {
    let a = frame(1, 1, &["a"]);
    let b = frame(1, 2, &["b"]);
    let c = frame(1, 3, &["c"]);
    let samples = vec![
        ("worker".to_string(), vec![b.clone(), a.clone()], 1),
        ("main".to_string(), vec![a.clone()], 5),
        ("worker".to_string(), vec![c.clone(), a.clone()], 3),
        ("worker".to_string(), vec![c.clone()], 1),
        ("idle".to_string(), vec![], 5),
    ];
    let root = build_flame_graph(&samples);
    assert_eq!(
        shape(&root),
        vec![
            "15 100% of all CPU cycles skip=0",
            // of equal weight: in the order of the frames, which number the threads
            "  5 worker skip=0",
            "    4 a skip=0",
            "      3 c skip=0",
            "      1 b skip=0",
            "    1 c skip=0",
            "  5 main skip=0",
            "    5 a skip=0",
            "  5 idle skip=0",
        ]
    );
    assert_eq!(root.children[0].kind, None);
    assert_eq!(root.children[0].id, FrameId { file_id: FileId(0), addr_or_line: 0 });
    assert_eq!(root.children[1].id.addr_or_line, 1);
    assert_eq!(root.children[2].id.addr_or_line, 2);
    assert_eq!(shape(&build_flame_graph(&vec![])), vec!["0 100% of all CPU cycles skip=0"]);
}

#[test]
fn children_are_sorted_by_weight_then_frame() {
    let mut root = FlameGraphNode::root();
    root.insert_trace(&vec![frame(2, 1, &["light"])], 1);
    root.insert_trace(&vec![frame(1, 9, &["heavy"])], 9);
    root.insert_trace(&vec![frame(1, 2, &["tie, later frame"])], 4);
    root.insert_trace(&vec![frame(1, 1, &["tie, earlier frame"])], 4);
    root.insert_trace(&vec![frame(0, 99, &["tie, first file"])], 4);
    root.sort_children();
    let texts: Vec<&str> = root.children.iter().map(|c| c.text.as_str()).collect();
    assert_eq!(
        texts,
        vec!["heavy", "tie, first file", "tie, earlier frame", "tie, later frame", "light"]
    );
    let (first, second) = (&root.children[0], &root.children[1]);
    assert!(first.may_stand_before(second));
    assert!(!second.may_stand_before(first));
    assert!(first.may_stand_before(first));
    let meta = FlameGraphNode::new_meta_node("thread".to_string(), 3);
    assert_eq!((meta.weight, meta.kind, meta.inline_skip), (0, None, 0));
    assert_eq!(meta.id, FrameId { file_id: FileId(0), addr_or_line: 3 });
    assert!(meta.children.is_empty());
}
