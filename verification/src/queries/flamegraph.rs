//! The flame graph: the traces of a window as one tree.
//!
//! Below the root stands one node for each thread name, and below that the
//! frames of its traces, the root of a trace first. Traces that start
//! with the same frames share the nodes of these frames. The weight of a
//! node is the sum of the counts of the samples whose trace runs through
//! it. A frame into which functions were inlined is a chain of nodes, one
//! for each function, and the first node of the chain knows how long the
//! chain is.

use crate::storage::bytes::{be_u128, be_u64, u64_to_be};
use crate::storage::dbtypes::{format_hex_bytes, hex_text, FileId};
use crate::storage::errorspec::{error_spec_by_id, ErrorSpecs};
use crate::storage::symdb::{SymbolizedFrame, SymbolizedFrameView};
use crate::storage::table::TableKey;
use crate::storage::tables::executables::opt_text;
use crate::storage::tables::stackframes::FrameId;
use crate::storage::tables::stacktraces::{Frame, FrameKind, InterpKind};
use vstd::prelude::*;
use vstd::string::StringExecFns;

verus! {

/// Node in the flame graph tree structure.
#[derive(Debug, PartialEq, Eq)]
pub struct FlameGraphNode {
    /// The sum of the counts of the samples that run through the node.
    pub weight: u64,
    /// The kind of the frame; `None` for the root and for the node of a
    /// thread name.
    pub kind: Option<FrameKind>,
    /// The frame that the node stands for.
    pub id: FrameId,
    pub text: String,
    /// For the first node of a frame: how many nodes of functions that
    /// were inlined follow below it, each the only child of the one before.
    pub inline_skip: u16,
    pub children: Vec<FlameGraphNode>,
}

/// What a [`FlameGraphNode`] holds.
pub struct FlameView {
    pub weight: u64,
    pub kind: Option<FrameKind>,
    pub id: FrameId,
    pub text: Seq<char>,
    pub inline_skip: u16,
    pub children: Seq<FlameView>,
}

/// The views of the first `n` of a list of nodes.
pub open spec fn views_of(nodes: Seq<FlameGraphNode>, n: int) -> Seq<FlameView>
    decreases nodes, n, 0int,
{
    if n <= 0 || n > nodes.len() {
        Seq::empty()
    } else {
        views_of(nodes, n - 1).push(node_view(nodes[n - 1]))
    }
}

/// What a node holds, with all that is below it.
pub open spec fn node_view(node: FlameGraphNode) -> FlameView
    decreases node, 0int, 1int,
{
    FlameView {
        weight: node.weight,
        kind: node.kind,
        id: node.id,
        text: node.text@,
        inline_skip: node.inline_skip,
        children: views_of(node.children@, node.children@.len() as int),
    }
}

impl View for FlameGraphNode {
    type V = FlameView;

    open spec fn view(&self) -> FlameView {
        node_view(*self)
    }
}

/// The views of a list of nodes are the views of its nodes, one for one.
pub proof fn lemma_views_of(nodes: Seq<FlameGraphNode>, n: int)
    requires
        0 <= n <= nodes.len(),
    ensures
        views_of(nodes, n).len() == n,
        forall|k: int| 0 <= k < n ==> #[trigger] views_of(nodes, n)[k] == node_view(nodes[k]),
    decreases n,
{
    if n > 0 {
        lemma_views_of(nodes, n - 1);
    }
}

/// A frame of a trace as the flame graph takes it in: the frame, and the
/// texts of its nodes, one for each function at the frame, the one into
/// which the others were inlined first.
#[derive(Debug, Clone, PartialEq, Eq)]
pub struct FlameFrame {
    pub frame: Frame,
    pub texts: Vec<String>,
}

/// What a [`FlameFrame`] holds.
pub struct FlameFrameView {
    pub frame: Frame,
    pub texts: Seq<Seq<char>>,
}

impl View for FlameFrame {
    type V = FlameFrameView;

    open spec fn view(&self) -> FlameFrameView {
        FlameFrameView {
            frame: self.frame,
            texts: Seq::new(self.texts@.len(), |i: int| self.texts@[i]@),
        }
    }
}

/// The views of the frames of a trace.
pub open spec fn trace_view(trace: Seq<FlameFrame>) -> Seq<FlameFrameView> {
    Seq::new(trace.len(), |i: int| trace[i]@)
}

/// `a + b`, held at the upper end of the 64-bit range.
pub open spec fn heavier(a: u64, b: u64) -> u64 {
    if a + b > u64::MAX {
        u64::MAX
    } else {
        (a + b) as u64
    }
}

/// The place of the first node for a frame among the children of a node;
/// the number of children where there is none.
pub open spec fn child_place(children: Seq<FlameView>, id: FrameId, from: int) -> int
    decreases children.len() - from,
{
    if from < 0 || from >= children.len() {
        children.len() as int
    } else if children[from].id == id {
        from
    } else {
        child_place(children, id, from + 1)
    }
}

/// A node at which the part of a trace below a frame arrives, after the
/// first `n` frames of the trace, counted from the leaf, were taken in
/// below it.
///
/// The next frame is the one at place `n - 1`. Where a child stands for
/// that frame, the trace runs on through it; else it gets a new child. A
/// frame without a text is passed over.
pub open spec fn landed(node: FlameView, trace: Seq<FlameFrameView>, n: int, weight: u64) -> FlameView
    decreases n, 0int, 0int,
{
    if n <= 0 || n > trace.len() {
        node
    } else {
        let f = trace[n - 1];
        if f.texts.len() == 0 {
            landed(node, trace, n - 1, weight)
        } else {
            let at = child_place(node.children, f.frame.id, 0);
            if at < node.children.len() {
                FlameView {
                    children: node.children.update(
                        at,
                        followed(
                            node.children[at],
                            node.children[at].inline_skip as int,
                            trace,
                            n - 1,
                            weight,
                        ),
                    ),
                    ..node
                }
            } else {
                FlameView {
                    children: node.children.push(fresh(f, 0, trace, n - 1, weight)),
                    ..node
                }
            }
        }
    }
}

/// A node through which a trace runs on: it grows by the weight of the
/// trace, and so do the `skip` nodes of inlined functions below it, each
/// the first child of the one before. At the last of them the rest of the
/// trace arrives.
pub open spec fn followed(
    node: FlameView,
    skip: int,
    trace: Seq<FlameFrameView>,
    n: int,
    weight: u64,
) -> FlameView
    decreases n, 1int, skip,
{
    let grown = FlameView { weight: heavier(node.weight, weight), ..node };
    if skip > 0 && node.children.len() > 0 {
        FlameView {
            children: node.children.update(
                0,
                followed(node.children[0], skip - 1, trace, n, weight),
            ),
            ..grown
        }
    } else {
        landed(grown, trace, n, weight)
    }
}

/// The number of nodes that follow below the first node of a frame with
/// so many texts, cut to 16 bits.
pub open spec fn skip_of(texts: int) -> u16 {
    ((texts - 1) % 0x1_0000) as u16
}

/// The new node for the text at place `i` of a frame, with the nodes of
/// the texts behind it and the rest of the trace below it.
pub open spec fn fresh(f: FlameFrameView, i: int, trace: Seq<FlameFrameView>, n: int, weight: u64) -> FlameView
    decreases n, 1int, f.texts.len() - i,
{
    let node = FlameView {
        weight,
        kind: Some(f.frame.kind),
        id: f.frame.id,
        text: f.texts[i],
        inline_skip: if i == 0 {
            skip_of(f.texts.len() as int)
        } else {
            0
        },
        children: Seq::empty(),
    };
    if 0 <= i && i + 1 < f.texts.len() {
        FlameView { children: seq![fresh(f, i + 1, trace, n, weight)], ..node }
    } else {
        landed(node, trace, n, weight)
    }
}

/// A node below which a trace was taken in: the node has grown by the
/// weight of the trace, and the frames of the trace, the last one first,
/// run down from it.
pub open spec fn with_trace(node: FlameView, trace: Seq<FlameFrameView>, weight: u64) -> FlameView {
    landed(
        FlameView { weight: heavier(node.weight, weight), ..node },
        trace,
        trace.len() as int,
        weight,
    )
}

impl FlameGraphNode {
    /// A node that stands for no frame: the root, or a thread name.
    pub fn new_meta_node(text: String, addr_or_line: u64) -> (node: FlameGraphNode)
        ensures
            node@ == (FlameView {
                weight: 0,
                kind: None,
                id: FrameId { file_id: FileId(0), addr_or_line },
                text: text@,
                inline_skip: 0,
                children: Seq::empty(),
            }),
    {
        FlameGraphNode {
            text,
            weight: 0,
            kind: None,
            id: FrameId { file_id: FileId(0), addr_or_line },
            inline_skip: 0,
            children: Vec::new(),
        }
    }

    /// The sum of the weights of the children, held at the upper end of
    /// the 64-bit range.
    pub open spec fn children_weight(children: Seq<FlameGraphNode>, n: int) -> u64
        decreases n,
    {
        if n <= 0 || n > children.len() {
            0
        } else {
            heavier(FlameGraphNode::children_weight(children, n - 1), children[n - 1].weight)
        }
    }

    /// Node's weight including children.
    pub fn weight_children(&self) -> (w: u64)
        ensures
            w == FlameGraphNode::children_weight(self.children@, self.children@.len() as int),
    {
        let mut w: u64 = 0;
        let mut i: usize = 0;
        while i < self.children.len()
            invariant
                i <= self.children.len(),
                w == FlameGraphNode::children_weight(self.children@, i as int),
            decreases self.children.len() - i,
        {
            w = w.saturating_add(self.children[i].weight);
            i += 1;
        }
        w
    }

    /// Node's weight excluding children: what is left of the weight of
    /// the node after that of its children, and nothing where the
    /// children weigh more.
    pub fn weight_self(&self) -> (w: u64)
        ensures
            w == if self.weight >= FlameGraphNode::children_weight(
                self.children@,
                self.children@.len() as int,
            ) {
                self.weight - FlameGraphNode::children_weight(
                    self.children@,
                    self.children@.len() as int,
                )
            } else {
                0
            },
    {
        let below = self.weight_children();
        if self.weight >= below {
            self.weight - below
        } else {
            0
        }
    }

    fn fresh_node(f: &FlameFrame, i: usize, trace: &Vec<FlameFrame>, n: usize, weight: u64) -> (node:
        FlameGraphNode)
        requires
            i < f.texts.len(),
            n <= trace.len(),
        ensures
            node@ == fresh(f@, i as int, trace_view(trace@), n as int, weight),
        decreases n, 1int, f.texts.len() - i,
    {
        let mut node = FlameGraphNode {
            weight,
            kind: Some(f.frame.kind),
            id: f.frame.id,
            text: f.texts[i].clone(),
            inline_skip: if i == 0 {
                ((f.texts.len() - 1) % 0x1_0000) as u16
            } else {
                0
            },
            children: Vec::new(),
        };
        if i + 1 < f.texts.len() {
            let below = FlameGraphNode::fresh_node(f, i + 1, trace, n, weight);
            node.children.push(below);
            proof {
                lemma_views_of(node.children@, 1);
                assert(node@.children =~= seq![below@]);
            }
            node
        } else {
            proof {
                lemma_views_of(node.children@, 0);
            }
            FlameGraphNode::land(&mut node, trace, n, weight);
            node
        }
    }

    fn follow(&mut self, skip: u16, trace: &Vec<FlameFrame>, n: usize, weight: u64)
        requires
            n <= trace.len(),
        ensures
            final(self)@ == followed(old(self)@, skip as int, trace_view(trace@), n as int, weight),
        decreases n, 1int, skip,
    {
        let ghost before = *self;
        self.weight = self.weight.saturating_add(weight);
        if skip > 0 && self.children.len() > 0 {
            FlameGraphNode::follow(&mut self.children[0], skip - 1, trace, n, weight);
            proof {
                lemma_views_of(before.children@, before.children@.len() as int);
                lemma_views_of(self.children@, self.children@.len() as int);
                assert(self@.children =~= before@.children.update(0, self.children@[0]@));
            }
        } else {
            FlameGraphNode::land(self, trace, n, weight);
        }
    }

    fn land(&mut self, trace: &Vec<FlameFrame>, n: usize, weight: u64)
        requires
            n <= trace.len(),
        ensures
            final(self)@ == landed(old(self)@, trace_view(trace@), n as int, weight),
        decreases n, 0int, 0int,
    {
        if n == 0 {
            return ;
        }
        let f = &trace[n - 1];
        if f.texts.len() == 0 {
            FlameGraphNode::land(self, trace, n - 1, weight);
            return ;
        }
        let ghost before = *self;
        proof {
            lemma_views_of(before.children@, before.children@.len() as int);
        }
        let mut at: usize = 0;
        while at < self.children.len() && self.children[at].id != f.frame.id
            invariant
                at <= self.children.len(),
                *self == before,
                child_place(before@.children, f.frame.id, 0) == child_place(
                    before@.children,
                    f.frame.id,
                    at as int,
                ),
                before@.children.len() == before.children@.len(),
                forall|k: int|
                    0 <= k < before.children@.len() ==> #[trigger] before@.children[k] == node_view(
                        before.children@[k],
                    ),
            decreases self.children.len() - at,
        {
            at += 1;
        }
        if at < self.children.len() {
            let skip = self.children[at].inline_skip;
            FlameGraphNode::follow(&mut self.children[at], skip, trace, n - 1, weight);
            proof {
                lemma_views_of(self.children@, self.children@.len() as int);
                assert(self@.children =~= before@.children.update(at as int, self.children@[at as int]@));
            }
        } else {
            let child = FlameGraphNode::fresh_node(f, 0, trace, n - 1, weight);
            self.children.push(child);
            proof {
                lemma_views_of(self.children@, self.children@.len() as int);
                assert(self@.children =~= before@.children.push(child@));
            }
        }
    }

    /// Insert a trace into the flame graph, below this node: `trace` holds
    /// the frames of the trace, the leaf first, and `weight` the count of
    /// the sample.
    pub fn insert_trace(&mut self, trace: &Vec<FlameFrame>, weight: u64)
        ensures
            final(self)@ == with_trace(old(self)@, trace_view(trace@), weight),
    {
        self.weight = self.weight.saturating_add(weight);
        FlameGraphNode::land(self, trace, trace.len(), weight);
    }
}

/// The decimal digit of a number below ten.
pub open spec fn digit_char(d: int) -> char {
    if d == 0 {
        '0'
    } else if d == 1 {
        '1'
    } else if d == 2 {
        '2'
    } else if d == 3 {
        '3'
    } else if d == 4 {
        '4'
    } else if d == 5 {
        '5'
    } else if d == 6 {
        '6'
    } else if d == 7 {
        '7'
    } else if d == 8 {
        '8'
    } else {
        '9'
    }
}

/// A number in decimal digits, without leading zeros.
pub open spec fn decimal_of(n: nat) -> Seq<char>
    decreases n,
{
    if n < 10 {
        seq![digit_char(n as int)]
    } else {
        decimal_of(n / 10).push(digit_char((n % 10) as int))
    }
}

fn digit_str(d: u64) -> (text: &'static str)
    requires
        d < 10,
    ensures
        text@ == seq![digit_char(d as int)],
{
    proof {
        reveal_strlit("0");
        reveal_strlit("1");
        reveal_strlit("2");
        reveal_strlit("3");
        reveal_strlit("4");
        reveal_strlit("5");
        reveal_strlit("6");
        reveal_strlit("7");
        reveal_strlit("8");
        reveal_strlit("9");
    }
    let text = match d {
        0 => "0",
        1 => "1",
        2 => "2",
        3 => "3",
        4 => "4",
        5 => "5",
        6 => "6",
        7 => "7",
        8 => "8",
        _ => "9",
    };
    assert(text@ =~= seq![digit_char(d as int)]);
    text
}

/// Writes a number in decimal digits.
pub fn decimal(n: u64) -> (text: String)
    ensures
        text@ == decimal_of(n as nat),
    decreases n,
{
    if n < 10 {
        digit_str(n).to_owned()
    } else {
        let mut text = decimal(n / 10);
        text.append(digit_str(n % 10));
        assert(text@ =~= decimal_of((n / 10) as nat).push(digit_char((n % 10) as int)));
        text
    }
}

/// Whether a frame is shown with the name of its executable: a native
/// frame is, with or without an error.
pub open spec fn shows_executable(kind: FrameKind) -> bool {
    kind == FrameKind::Regular(InterpKind::Native) || kind == FrameKind::Error(InterpKind::Native)
}

/// The text of a symbolized frame.
///
/// A native frame starts with the name of its executable, or with the
/// file id in hexadecimal digits where the name is not known. A frame
/// whose function is known goes on with the function, the file behind
/// ` in ` and the line behind `:`, as far as they are known; in a native
/// frame `: ` stands before the function. A frame whose function is not
/// known goes on with `+0x` and the address in sixteen hexadecimal digits.
pub open spec fn label_of(record: SymbolizedFrameView, exe_name: Option<Seq<char>>) -> Seq<char> {
    let native = shows_executable(record.raw.kind);
    let head = if native {
        match exe_name {
            Some(name) => name,
            None => hex_text(be_u128(record.raw.id.file_id.0)),
        }
    } else {
        Seq::empty()
    };
    match record.func {
        Some(func) => head + if native {
            ": "@
        } else {
            Seq::empty()
        } + func + match record.file {
            Some(file) => " in "@ + file,
            None => Seq::empty(),
        } + match record.line_no {
            Some(line) => ":"@ + decimal_of(line as nat),
            None => Seq::empty(),
        },
        None => head + "+0x"@ + hex_text(be_u64(record.raw.id.addr_or_line)),
    }
}

/// Writes the text of a symbolized frame. `exe_name` is the name of the
/// executable of the frame, where the table of executables knows one.
pub fn label(record: &SymbolizedFrame, exe_name: Option<&str>) -> (text: String)
    ensures
        text@ == label_of(
            record@,
            match exe_name {
                Some(name) => Some(name@),
                None => None,
            },
        ),
{
    let native = match record.raw.kind.interp() {
        Some(InterpKind::Native) => true,
        _ => false,
    };
    let mut text = if native {
        match exe_name {
            Some(name) => name.to_owned(),
            None => record.raw.id.file_id.format_hex(),
        }
    } else {
        String::new()
    };
    match &record.func {
        Some(func) => {
            if native {
                text.append(": ");
            }
            text.append(func.as_str());
            match &record.file {
                Some(file) => {
                    text.append(" in ");
                    text.append(file.as_str());
                },
                None => {},
            }
            match record.line_no {
                Some(line) => {
                    text.append(":");
                    let digits = decimal(line as u64);
                    text.append(digits.as_str());
                },
                None => {},
            }
        },
        None => {
            text.append("+0x");
            let addr = u64_to_be(record.raw.id.addr_or_line);
            let digits = format_hex_bytes(addr.as_slice());
            text.append(digits.as_str());
        },
    }
    assert(text@ =~= label_of(
        record@,
        match exe_name {
            Some(name) => Some(name@),
            None => None,
        },
    ));
    text
}

/// The text of the node of one function at a frame: the text of the
/// symbolized frame, then for a regular or error frame the interpreter
/// in brackets, and ` [Inline]` for every function but the first.
pub open spec fn node_text(record: SymbolizedFrameView, exe_name: Option<Seq<char>>, i: int) -> Seq<
    char,
> {
    let base = label_of(record, exe_name);
    match record.raw.kind {
        FrameKind::Regular(interp) => base + " ["@ + interp.name_spec() + "]"@ + if i > 0 {
            " [Inline]"@
        } else {
            Seq::empty()
        },
        FrameKind::Error(interp) => base + " ["@ + interp.name_spec() + "]"@ + if i > 0 {
            " [Inline]"@
        } else {
            Seq::empty()
        },
        _ => base,
    }
}

/// The text of the node at which unwinding was given up: the name of the
/// error where the catalog knows the code, else the code.
pub open spec fn abort_text(errors: &ErrorSpecs, code: u64) -> Seq<char> {
    if errors.entries().contains_key(code) {
        "<unwinding aborted: "@ + errors.entries()[code].name@ + ">"@
    } else {
        "<unwinding aborted: "@ + "error code "@ + decimal_of(code as nat) + ">"@
    }
}

/// The texts of the nodes of a frame.
///
/// `records` is what symbolization gives for the frame. The abort marker
/// has one node, whose text names the error that its address stands for.
/// Every other frame has one node for each record.
pub open spec fn frame_texts_of(
    frame: Frame,
    records: Seq<SymbolizedFrame>,
    exe_name: Option<Seq<char>>,
    errors: &ErrorSpecs,
) -> Seq<Seq<char>> {
    if frame.kind == FrameKind::Abort {
        seq![abort_text(errors, frame.id.addr_or_line)]
    } else {
        Seq::new(records.len(), |i: int| node_text(records[i]@, exe_name, i))
    }
}

/// Makes the frame of a trace ready for the flame graph: works the texts
/// of its nodes out.
pub fn flame_frame(
    frame: Frame,
    records: &Vec<SymbolizedFrame>,
    exe_name: Option<&str>,
    errors: &ErrorSpecs,
) -> (f: FlameFrame)
    ensures
        f@ == (FlameFrameView {
            frame,
            texts: frame_texts_of(
                frame,
                records@,
                match exe_name {
                    Some(name) => Some(name@),
                    None => None,
                },
                errors,
            ),
        }),
{
    let ghost name = match exe_name {
        Some(name) => Some(name@),
        None => None,
    };
    let mut texts: Vec<String> = Vec::new();
    if frame.kind == FrameKind::Abort {
        let mut text = "<unwinding aborted: ".to_owned();
        match error_spec_by_id(errors, frame.id.addr_or_line) {
            Some(spec) => {
                text.append(spec.name.as_str());
            },
            None => {
                text.append("error code ");
                let digits = decimal(frame.id.addr_or_line);
                text.append(digits.as_str());
            },
        }
        text.append(">");
        assert(text@ =~= abort_text(errors, frame.id.addr_or_line));
        texts.push(text);
        let f = FlameFrame { frame, texts };
        assert(f@.texts =~= frame_texts_of(frame, records@, name, errors));
        return f;
    }
    let mut i: usize = 0;
    while i < records.len()
        invariant
            i <= records.len(),
            frame.kind != FrameKind::Abort,
            name == match exe_name {
                Some(name) => Some(name@),
                None => None,
            },
            texts.len() == i,
            forall|k: int| 0 <= k < i ==> (#[trigger] texts[k])@ == node_text(records[k]@, name, k),
        decreases records.len() - i,
    {
        let record = &records[i];
        let mut text = label(record, exe_name);
        match record.raw.kind.interp() {
            Some(interp) => {
                text.append(" [");
                text.append(interp.name());
                text.append("]");
                if i > 0 {
                    text.append(" [Inline]");
                }
            },
            None => {},
        }
        assert(text@ =~= node_text(record@, name, i as int));
        texts.push(text);
        i += 1;
    }
    let f = FlameFrame { frame, texts };
    assert(f@.texts =~= frame_texts_of(frame, records@, name, errors));
    f
}

/// The place of the node of a thread name among the children of the
/// root; the number of children where there is none.
pub open spec fn comm_place(children: Seq<FlameView>, comm: Seq<char>, from: int) -> int
    decreases children.len() - from,
{
    if from < 0 || from >= children.len() {
        children.len() as int
    } else if children[from].kind is None && children[from].text == comm {
        from
    } else {
        comm_place(children, comm, from + 1)
    }
}

/// The node of a thread name without a trace below it. It is numbered by
/// its place below the root.
pub open spec fn comm_node(comm: Seq<char>, place: int) -> FlameView {
    FlameView {
        weight: 0,
        kind: None,
        id: FrameId { file_id: FileId(0), addr_or_line: (place % 0x1_0000_0000_0000_0000) as u64 },
        text: comm,
        inline_skip: 0,
        children: Seq::empty(),
    }
}

/// The root after a sample was taken in: the root has grown by the
/// weight of the sample, and the trace was taken in below the node of
/// the thread name, which is new where the thread was not seen before.
pub open spec fn with_sample(
    root: FlameView,
    comm: Seq<char>,
    trace: Seq<FlameFrameView>,
    weight: u64,
) -> FlameView {
    let at = comm_place(root.children, comm, 0);
    FlameView {
        weight: heavier(root.weight, weight),
        children: if at < root.children.len() {
            root.children.update(at, with_trace(root.children[at], trace, weight))
        } else {
            root.children.push(with_trace(comm_node(comm, at), trace, weight))
        },
        ..root
    }
}

/// Whether a node may stand before another among the children of a node:
/// the heavier one first, and of two of one weight the one whose frame
/// comes first in the order of the table of frames.
pub open spec fn ranks_first(a: FlameView, b: FlameView) -> bool {
    a.weight > b.weight || (a.weight == b.weight && a.id.key_le(b.id))
}

/// The place at which a node belongs in a list that is in order: behind
/// all that may stand before it.
pub open spec fn rank_place(list: Seq<FlameView>, x: FlameView, from: int) -> int
    decreases list.len() - from,
{
    if from < 0 || from >= list.len() || !ranks_first(list[from], x) {
        from
    } else {
        rank_place(list, x, from + 1)
    }
}

/// The first `n` of a list of nodes, each sorted below, in order.
pub open spec fn sorted_nodes(nodes: Seq<FlameGraphNode>, n: int) -> Seq<FlameView>
    decreases nodes, n, 0int,
{
    if n <= 0 || n > nodes.len() {
        Seq::empty()
    } else {
        let before = sorted_nodes(nodes, n - 1);
        let x = sorted_node(nodes[n - 1]);
        before.insert(rank_place(before, x, 0), x)
    }
}

/// A node with the children of every node below it in order.
pub open spec fn sorted_node(node: FlameGraphNode) -> FlameView
    decreases node, 0int, 1int,
{
    FlameView {
        weight: node.weight,
        kind: node.kind,
        id: node.id,
        text: node.text@,
        inline_skip: node.inline_skip,
        children: sorted_nodes(node.children@, node.children@.len() as int),
    }
}

impl FlameGraphNode {
    /// The root of a flame graph without samples.
    pub fn root() -> (node: FlameGraphNode)
        ensures
            node@ == (FlameView {
                weight: 0,
                kind: None,
                id: FrameId { file_id: FileId(0), addr_or_line: 0 },
                text: "100% of all CPU cycles"@,
                inline_skip: 0,
                children: Seq::empty(),
            }),
    {
        FlameGraphNode::new_meta_node("100% of all CPU cycles".to_owned(), 0)
    }

    /// Takes a sample in at the root: `comm` is the name of the thread
    /// that the sample was taken in, `trace` holds the frames of its
    /// trace, the leaf first, and `weight` its count.
    pub fn add_sample(&mut self, comm: &str, trace: &Vec<FlameFrame>, weight: u64)
        ensures
            final(self)@ == with_sample(old(self)@, comm@, trace_view(trace@), weight),
    {
        let ghost before = *self;
        proof {
            lemma_views_of(before.children@, before.children@.len() as int);
        }
        self.weight = self.weight.saturating_add(weight);
        let mut at: usize = 0;
        while at < self.children.len() && !(self.children[at].kind.is_none() && str::eq(
            self.children[at].text.as_str(),
            comm,
        ))
            invariant
                at <= self.children.len(),
                self.children == before.children,
                comm_place(before@.children, comm@, 0) == comm_place(
                    before@.children,
                    comm@,
                    at as int,
                ),
                before@.children.len() == before.children@.len(),
                forall|k: int|
                    0 <= k < before.children@.len() ==> #[trigger] before@.children[k] == node_view(
                        before.children@[k],
                    ),
            decreases self.children.len() - at,
        {
            at += 1;
        }
        if at < self.children.len() {
            self.children[at].insert_trace(trace, weight);
            proof {
                lemma_views_of(self.children@, self.children@.len() as int);
                assert(self@.children =~= before@.children.update(at as int, self.children@[at as int]@));
            }
        } else {
            let mut node = FlameGraphNode::new_meta_node(comm.to_owned(), at as u64);
            node.insert_trace(trace, weight);
            self.children.push(node);
            proof {
                lemma_views_of(self.children@, self.children@.len() as int);
                assert(self@.children =~= before@.children.push(node@));
            }
        }
    }

    /// Whether this node may stand before `other` among the children of a
    /// node.
    pub fn may_stand_before(&self, other: &FlameGraphNode) -> (r: bool)
        ensures
            r == ranks_first(self@, other@),
    {
        self.weight > other.weight || (self.weight == other.weight && self.id.precedes(other.id))
    }

    /// Sort all nodes in the graph: the children of every node come in
    /// the order of their weight, the heaviest first, and those of one
    /// weight in the order of their frames. Nodes that the order does not
    /// tell apart stay in the order in which they stood.
    pub fn sort_children(&mut self)
        ensures
            final(self)@ == sorted_node(*old(self)),
        decreases *old(self),
    {
        let mut kids: Vec<FlameGraphNode> = Vec::new();
        core::mem::swap(&mut self.children, &mut kids);
        let ghost all = kids@;
        let mut sorted: Vec<FlameGraphNode> = Vec::new();
        proof {
            lemma_views_of(sorted@, 0);
        }
        for child in it: kids
            invariant
                it.seq() == all,
                all == old(self).children@,
                views_of(sorted@, sorted@.len() as int) == sorted_nodes(all, it.index() as int),
                sorted@.len() == it.index(),
        {
            let mut c = child;
            assert(c == all[it.index() as int]);
            c.sort_children();
            let ghost list = views_of(sorted@, sorted@.len() as int);
            let ghost before = sorted@;
            proof {
                lemma_views_of(before, before.len() as int);
            }
            let mut p: usize = 0;
            while p < sorted.len() && sorted[p].may_stand_before(&c)
                invariant
                    p <= sorted.len(),
                    sorted@ == before,
                    list == views_of(before, before.len() as int),
                    list.len() == before.len(),
                    forall|k: int| 0 <= k < before.len() ==> #[trigger] list[k] == node_view(before[k]),
                    rank_place(list, c@, 0) == rank_place(list, c@, p as int),
                decreases sorted.len() - p,
            {
                p += 1;
            }
            let ghost x = c@;
            sorted.insert(p, c);
            proof {
                lemma_views_of(sorted@, sorted@.len() as int);
                assert(views_of(sorted@, sorted@.len() as int) =~= list.insert(p as int, x));
            }
        }
        self.children = sorted;
    }
}

/// Builds the flame graph of the samples of a window.
///
/// Each sample comes with the name of its thread, the frames of its
/// trace, the leaf first, and its count. The graph is sorted.
pub fn build_flame_graph(samples: &Vec<(String, Vec<FlameFrame>, u64)>) -> (root: FlameGraphNode)
    ensures
        exists|unsorted: FlameGraphNode|
            #![trigger sorted_node(unsorted)]
            unsorted@ == graph_of(samples@, samples@.len() as int) && root@ == sorted_node(unsorted),
{
    let mut root = FlameGraphNode::root();
    let mut i: usize = 0;
    while i < samples.len()
        invariant
            i <= samples.len(),
            root@ == graph_of(samples@, i as int),
        decreases samples.len() - i,
    {
        root.add_sample(samples[i].0.as_str(), &samples[i].1, samples[i].2);
        i += 1;
    }
    let ghost unsorted = root;
    root.sort_children();
    assert(unsorted@ == graph_of(samples@, samples@.len() as int) && root@ == sorted_node(unsorted));
    root
}

/// The flame graph of the first `n` samples, before it is sorted.
pub open spec fn graph_of(samples: Seq<(String, Vec<FlameFrame>, u64)>, n: int) -> FlameView
    decreases n,
{
    if n <= 0 || n > samples.len() {
        FlameView {
            weight: 0,
            kind: None,
            id: FrameId { file_id: FileId(0), addr_or_line: 0 },
            text: "100% of all CPU cycles"@,
            inline_skip: 0,
            children: Seq::empty(),
        }
    } else {
        with_sample(
            graph_of(samples, n - 1),
            samples[n - 1].0@,
            trace_view(samples[n - 1].1@),
            samples[n - 1].2,
        )
    }
}

} // verus!
