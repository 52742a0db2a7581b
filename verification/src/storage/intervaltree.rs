//! Static interval tree over address ranges.
//!
//! The tree is built once and never changed. Its elements lie in one vector,
//! ordered by the start of their ranges. The middle element of a stretch of
//! the vector is the root of the subtree that the stretch holds; what lies
//! before it is its left subtree and what lies after it its right one. Each
//! node knows the largest end of a range in its subtree, so that a query can
//! leave out a subtree that ends before the query starts. What a query
//! finds comes in the order of the vector.

use vstd::prelude::*;

verus! {

/// An element of an interval tree: a half-open range of addresses, from
/// `start` up to but not including `end`, and the value that belongs to it.
#[derive(Debug, Clone, PartialEq, Eq, Hash)]
pub struct Element<V> {
    /// Start of the range associated with this element.
    pub start: u64,
    /// End of the range associated with this element.
    pub end: u64,
    /// The value associated with this element.
    pub value: V,
}

/// A node of the tree: an element and the largest end of a range in the
/// subtree below it.
#[derive(Debug, Clone, Hash)]
pub struct Node<V> {
    element: Element<V>,
    max: u64,
}

/// What a query asks for: the elements whose range contains a point, or
/// those whose range overlaps a range.
#[derive(Debug, Clone, Copy, PartialEq, Eq)]
pub enum Query {
    Point(u64),
    Range(u64, u64),
}

impl Query {
    /// The address at or below which no matching range can end.
    pub open spec fn point_spec(self) -> u64 {
        match self {
            Query::Point(k) => k,
            Query::Range(start, _) => start,
        }
    }

    /// Whether a range that starts at `start`, or after it, can still match.
    pub open spec fn go_right_spec(self, start: u64) -> bool {
        match self {
            Query::Point(k) => k >= start,
            Query::Range(_, end) => end > start,
        }
    }

    /// Whether the query reaches into a range, given that the range does
    /// not start too late.
    pub open spec fn intersect_spec(self, start: u64, end: u64) -> bool {
        match self {
            Query::Point(k) => k < end,
            Query::Range(qs, qe) => qe > start && qs < end,
        }
    }

    /// Whether a range is one that the query asks for: it contains the
    /// point, or overlaps the range, of the query.
    pub open spec fn selects(self, start: u64, end: u64) -> bool {
        match self {
            Query::Point(k) => start <= k < end,
            Query::Range(qs, qe) => qe > start && qs < end,
        }
    }

    /// The address at or below which no matching range can end.
    pub fn point(&self) -> (p: u64)
        ensures
            p == self.point_spec(),
    {
        match *self {
            Query::Point(k) => k,
            Query::Range(start, _) => start,
        }
    }

    /// Whether a range that starts at `start`, or after it, can still match.
    pub fn go_right(&self, start: u64) -> (r: bool)
        ensures
            r == self.go_right_spec(start),
    {
        match *self {
            Query::Point(k) => k >= start,
            Query::Range(_, end) => end > start,
        }
    }

    /// Whether the query reaches into a range, given that the range does
    /// not start too late.
    pub fn intersect(&self, start: u64, end: u64) -> (r: bool)
        ensures
            r == self.intersect_spec(start, end),
            self.go_right_spec(start) ==> r == self.selects(start, end),
    {
        match *self {
            Query::Point(k) => k < end,
            Query::Range(qs, qe) => qe > start && qs < end,
        }
    }
}

/// The largest end of a range among the nodes from `a` up to `b`; zero for
/// an empty stretch.
spec fn max_end<V>(data: Seq<Node<V>>, a: int, b: int) -> u64
    decreases b - a,
{
    if a >= b {
        0
    } else {
        let rest = max_end(data, a, b - 1);
        if data[b - 1].element.end > rest {
            data[b - 1].element.end
        } else {
            rest
        }
    }
}

/// Whether the nodes are ordered by the start of their ranges.
spec fn sorted_by_start<V>(data: Seq<Node<V>>) -> bool {
    forall|i: int, j: int|
        0 <= i <= j < data.len() ==> (#[trigger] data[i]).element.start <= (
        #[trigger] data[j]).element.start
}

/// Whether every node of the subtree in the stretch of `l` nodes from `s`
/// on knows the largest end of a range in its subtree.
spec fn maxima_hold<V>(data: Seq<Node<V>>, s: int, l: int) -> bool
    decreases l,
{
    if l <= 0 {
        true
    } else {
        let i = s + l / 2;
        &&& data[i].max == max_end(data, s, s + l)
        &&& maxima_hold(data, s, i - s)
        &&& maxima_hold(data, i + 1, s + l - i - 1)
    }
}

/// The places, in the stretch of `l` nodes from `s` on, of the elements
/// that a query asks for, in ascending order: what the left subtree holds,
/// then the root, then what the right subtree holds.
spec fn hits_in<V>(data: Seq<Node<V>>, q: Query, s: int, l: int) -> Seq<int>
    decreases l,
{
    if l <= 0 {
        Seq::empty()
    } else {
        let i = s + l / 2;
        let here = if q.selects(data[i].element.start, data[i].element.end) {
            seq![i]
        } else {
            Seq::empty()
        };
        hits_in(data, q, s, i - s) + here + hits_in(data, q, i + 1, s + l - i - 1)
    }
}

proof fn lemma_max_end_bounds<V>(data: Seq<Node<V>>, a: int, b: int, k: int)
    requires
        a <= k < b,
    ensures
        data[k].element.end <= max_end(data, a, b),
    decreases b - a,
{
    if k < b - 1 {
        lemma_max_end_bounds(data, a, b - 1, k);
    }
}

proof fn lemma_max_end_split<V>(data: Seq<Node<V>>, a: int, i: int, b: int)
    requires
        a <= i < b,
    ensures
        max_end(data, a, b) >= max_end(data, a, i),
        max_end(data, a, b) >= data[i].element.end,
        max_end(data, a, b) >= max_end(data, i + 1, b),
        max_end(data, a, b) == max_end(data, a, i) || max_end(data, a, b) == data[i].element.end
            || max_end(data, a, b) == max_end(data, i + 1, b),
    decreases b - a,
{
    if i < b - 1 {
        lemma_max_end_split(data, a, i, b - 1);
    }
}

proof fn lemma_max_end_frame<V>(d1: Seq<Node<V>>, d2: Seq<Node<V>>, a: int, b: int)
    requires
        forall|k: int| a <= k < b ==> (#[trigger] d1[k]).element.end == d2[k].element.end,
    ensures
        max_end(d1, a, b) == max_end(d2, a, b),
    decreases b - a,
{
    if a < b {
        lemma_max_end_frame(d1, d2, a, b - 1);
        assert(d1[b - 1].element.end == d2[b - 1].element.end);
    }
}

proof fn lemma_maxima_frame<V>(d1: Seq<Node<V>>, d2: Seq<Node<V>>, s: int, l: int)
    requires
        forall|k: int| s <= k < s + l ==> #[trigger] d1[k] == d2[k],
        maxima_hold(d1, s, l),
    ensures
        maxima_hold(d2, s, l),
    decreases l,
{
    if l > 0 {
        let i = s + l / 2;
        assert(d1[i] == d2[i]);
        assert forall|k: int| s <= k < s + l implies (#[trigger] d1[k]).element.end
            == d2[k].element.end by {
            assert(d1[k] == d2[k]);
        }
        lemma_max_end_frame(d1, d2, s, s + l);
        lemma_maxima_frame(d1, d2, s, i - s);
        lemma_maxima_frame(d1, d2, i + 1, s + l - i - 1);
    }
}

proof fn lemma_no_hits<V>(data: Seq<Node<V>>, q: Query, s: int, l: int)
    requires
        forall|k: int|
            s <= k < s + l ==> !q.selects(
                (#[trigger] data[k]).element.start,
                data[k].element.end,
            ),
    ensures
        hits_in(data, q, s, l) == Seq::<int>::empty(),
    decreases l,
{
    if l > 0 {
        let i = s + l / 2;
        assert(!q.selects(data[i].element.start, data[i].element.end));
        lemma_no_hits(data, q, i + 1, s + l - i - 1);
        lemma_no_hits(data, q, s, i - s);
        assert(hits_in(data, q, s, l) =~= Seq::<int>::empty());
    }
}

/// Every place that a query asks for lies in the stretch that was walked,
/// and holds an element that the query asks for.
proof fn lemma_hits_sound<V>(data: Seq<Node<V>>, q: Query, s: int, l: int, j: int)
    requires
        0 <= j < hits_in(data, q, s, l).len(),
    ensures
        s <= hits_in(data, q, s, l)[j] < s + l,
        q.selects(
            data[hits_in(data, q, s, l)[j]].element.start,
            data[hits_in(data, q, s, l)[j]].element.end,
        ),
    decreases l,
{
    if l > 0 {
        let i = s + l / 2;
        let here = if q.selects(data[i].element.start, data[i].element.end) {
            seq![i]
        } else {
            Seq::<int>::empty()
        };
        let right = hits_in(data, q, i + 1, s + l - i - 1);
        let left = hits_in(data, q, s, i - s);
        if j < left.len() {
            lemma_hits_sound(data, q, s, i - s, j);
        } else if j < left.len() + here.len() {
        } else {
            lemma_hits_sound(data, q, i + 1, s + l - i - 1, j - left.len() - here.len());
        }
    }
}

/// Every element of the stretch that a query asks for is found.
proof fn lemma_hits_complete<V>(data: Seq<Node<V>>, q: Query, s: int, l: int, k: int)
    requires
        s <= k < s + l,
        q.selects(data[k].element.start, data[k].element.end),
    ensures
        hits_in(data, q, s, l).contains(k),
    decreases l,
{
    let i = s + l / 2;
    let here = if q.selects(data[i].element.start, data[i].element.end) {
        seq![i]
    } else {
        Seq::<int>::empty()
    };
    let right = hits_in(data, q, i + 1, s + l - i - 1);
    let left = hits_in(data, q, s, i - s);
    let all = left + here + right;
    if k == i {
        assert(all[left.len() as int] == i);
    } else if k > i {
        lemma_hits_complete(data, q, i + 1, s + l - i - 1, k);
        let j = choose|j: int| 0 <= j < right.len() && right[j] == k;
        assert(all[left.len() + here.len() + j] == k);
    } else {
        lemma_hits_complete(data, q, s, i - s, k);
        let j = choose|j: int| 0 <= j < left.len() && left[j] == k;
        assert(all[j] == k);
    }
}

/// The places that are found ascend.
proof fn lemma_hits_ascend<V>(data: Seq<Node<V>>, q: Query, s: int, l: int, a: int, b: int)
    requires
        0 <= a < b < hits_in(data, q, s, l).len(),
    ensures
        hits_in(data, q, s, l)[a] < hits_in(data, q, s, l)[b],
    decreases l,
{
    if l > 0 {
        let i = s + l / 2;
        let here = if q.selects(data[i].element.start, data[i].element.end) {
            seq![i]
        } else {
            Seq::<int>::empty()
        };
        let right = hits_in(data, q, i + 1, s + l - i - 1);
        let left = hits_in(data, q, s, i - s);
        let n = left.len() as int;
        let h = here.len() as int;
        if a < n {
            lemma_hits_sound(data, q, s, i - s, a);
        }
        if b >= n + h {
            lemma_hits_sound(data, q, i + 1, s + l - i - 1, b - n - h);
        }
        if b < n {
            lemma_hits_ascend(data, q, s, i - s, a, b);
        }
        if a >= n + h {
            lemma_hits_ascend(data, q, i + 1, s + l - i - 1, a - n - h, b - n - h);
        }
    }
}

/// How often a sequence holds an element.
spec fn occurrences<V>(list: Seq<Element<V>>, e: Element<V>) -> nat
    decreases list.len(),
{
    if list.len() == 0 {
        0
    } else {
        occurrences(list.drop_last(), e) + if list.last() == e {
            1nat
        } else {
            0nat
        }
    }
}

/// How often the nodes from `a` up to `b` hold an element that the query
/// asks for.
spec fn selected<V>(data: Seq<Node<V>>, q: Query, a: int, b: int, e: Element<V>) -> nat
    decreases b - a,
{
    if a >= b {
        0
    } else {
        selected(data, q, a, b - 1, e) + if data[b - 1].element == e && q.selects(e.start, e.end) {
            1nat
        } else {
            0nat
        }
    }
}

proof fn lemma_occurrences_add<V>(x: Seq<Element<V>>, y: Seq<Element<V>>, e: Element<V>)
    ensures
        occurrences(x + y, e) == occurrences(x, e) + occurrences(y, e),
    decreases y.len(),
{
    if y.len() == 0 {
        assert(x + y =~= x);
    } else {
        assert((x + y).drop_last() =~= x + y.drop_last());
        lemma_occurrences_add(x, y.drop_last(), e);
    }
}

proof fn lemma_occurrences_count<V>(list: Seq<Element<V>>, e: Element<V>)
    ensures
        occurrences(list, e) == list.to_multiset().count(e),
    decreases list.len(),
{
    broadcast use vstd::seq_lib::group_to_multiset_ensures;

    if list.len() == 0 {
        assert(list.to_multiset().len() == 0);
        assert(list.to_multiset().count(e) == 0) by {
            if list.to_multiset().count(e) > 0 {
                assert(list.contains(e));
            }
        }
    } else {
        lemma_occurrences_count(list.drop_last(), e);
        assert(list =~= list.drop_last().push(list.last()));
        assert(list.to_multiset() =~= list.drop_last().to_multiset().insert(list.last()));
    }
}

proof fn lemma_selected_split<V>(data: Seq<Node<V>>, q: Query, a: int, i: int, b: int, e: Element<V>)
    requires
        a <= i <= b,
    ensures
        selected(data, q, a, b, e) == selected(data, q, a, i, e) + selected(data, q, i, b, e),
    decreases b - i,
{
    if i < b {
        lemma_selected_split(data, q, a, i, b - 1, e);
    }
}

proof fn lemma_hits_occur<V>(data: Seq<Node<V>>, q: Query, s: int, l: int, e: Element<V>)
    requires
        0 <= s,
        0 <= l,
        s + l <= data.len(),
    ensures
        occurrences(elements_at(data, hits_in(data, q, s, l)), e) == selected(data, q, s, s + l, e),
    decreases l,
{
    if l > 0 {
        let i = s + l / 2;
        let here = if q.selects(data[i].element.start, data[i].element.end) {
            seq![i]
        } else {
            Seq::<int>::empty()
        };
        let right = hits_in(data, q, i + 1, s + l - i - 1);
        let left = hits_in(data, q, s, i - s);
        lemma_hits_occur(data, q, i + 1, s + l - i - 1, e);
        lemma_hits_occur(data, q, s, i - s, e);
        let (eh, er, el) = (
            elements_at(data, here),
            elements_at(data, right),
            elements_at(data, left),
        );
        assert(elements_at(data, left + here + right) =~= el + eh + er);
        lemma_occurrences_add(el + eh, er, e);
        lemma_occurrences_add(el, eh, e);
        lemma_selected_split(data, q, s, i, s + l, e);
        lemma_selected_split(data, q, i, i + 1, s + l, e);
        assert(selected(data, q, i, i + 1, e) == occurrences(eh, e)) by {
            reveal_with_fuel(selected, 2);
            reveal_with_fuel(occurrences, 2);
            if here.len() > 0 {
                assert(eh.last() == data[i].element);
                assert(eh.drop_last() =~= Seq::<Element<V>>::empty());
            }
        }
    } else {
        assert(elements_at(data, hits_in(data, q, s, l)) =~= Seq::<Element<V>>::empty());
    }
}

proof fn lemma_selected_all<V>(data: Seq<Node<V>>, q: Query, n: int, e: Element<V>)
    requires
        0 <= n <= data.len(),
    ensures
        selected(data, q, 0, n, e) == if q.selects(e.start, e.end) {
            occurrences(Seq::new(n as nat, |k: int| data[k].element), e)
        } else {
            0
        },
    decreases n,
{
    let all = Seq::new(n as nat, |k: int| data[k].element);
    if n > 0 {
        lemma_selected_all(data, q, n - 1, e);
        assert(all.drop_last() =~= Seq::new((n - 1) as nat, |k: int| data[k].element));
    }
}

/// The elements that a vector of references points at.
pub open spec fn pointed_at<V>(refs: Seq<&Element<V>>) -> Seq<Element<V>> {
    Seq::new(refs.len(), |j: int| *refs[j])
}

/// The elements at the given places.
spec fn elements_at<V>(data: Seq<Node<V>>, places: Seq<int>) -> Seq<Element<V>> {
    Seq::new(places.len(), |j: int| data[places[j]].element)
}

/// `sort_unstable_by_key` of std's slices, on the start of the range: what
/// comes out holds the same elements, each as often as before, in the order
/// of their starts. Elements of one start may come out in any order.
#[verifier::external_body]
fn sort_by_start<V>(elements: &mut Vec<Element<V>>)
    ensures
        final(elements)@.to_multiset() == old(elements)@.to_multiset(),
        final(elements).len() == old(elements).len(),
        forall|i: int, j: int|
            0 <= i <= j < final(elements).len() ==> (#[trigger] final(elements)[i]).start <= (
            #[trigger] final(elements)[j]).start,
{
    elements.sort_unstable_by_key(|e| e.start);
}

/// A simple implementation of an immutable interval tree.
///
/// To build it, use [`Tree::from_iter`]. A query takes time in the order of
/// the height of the tree and of the number of elements found.
#[derive(Debug, Hash)]
pub struct Tree<V> {
    data: Vec<Node<V>>,
}

impl<V> View for Tree<V> {
    type V = Seq<Element<V>>;

    /// The elements of the tree, in the order of the start of their ranges.
    closed spec fn view(&self) -> Seq<Element<V>> {
        Seq::new(self.data@.len(), |k: int| self.data@[k].element)
    }
}

impl<V> Tree<V> {
    #[verifier::type_invariant]
    spec fn well_formed(self) -> bool {
        &&& sorted_by_start(self.data@)
        &&& maxima_hold(self.data@, 0, self.data@.len() as int)
    }

    /// The places of the elements that a query asks for, in ascending
    /// order.
    pub closed spec fn hits(&self, q: Query) -> Seq<int> {
        hits_in(self.data@, q, 0, self.data@.len() as int)
    }

    /// The elements that a query asks for, in the order of the tree, which
    /// is that of the start of their ranges.
    pub open spec fn found(&self, q: Query) -> Seq<Element<V>> {
        Seq::new(self.hits(q).len(), |j: int| self@[self.hits(q)[j]])
    }

    fn update_max(nodes: &mut Vec<Node<V>>, s: usize, l: usize) -> (m: u64)
        requires
            l > 0,
            s + l <= old(nodes).len(),
        ensures
            final(nodes).len() == old(nodes).len(),
            forall|k: int|
                0 <= k < old(nodes).len() ==> (#[trigger] final(nodes)[k]).element == old(
                    nodes,
                )[k].element,
            forall|k: int|
                0 <= k < old(nodes).len() && !(s <= k < s + l) ==> #[trigger] final(nodes)[k]
                    == old(nodes)[k],
            maxima_hold(final(nodes)@, s as int, l as int),
            m == max_end(final(nodes)@, s as int, s + l),
        decreases l,
    {
        let i = s + l / 2;
        let first = nodes[i].element.end;
        let left = i - s;
        let right = s + l - i - 1;
        let lm = if left > 0 {
            Tree::update_max(nodes, s, left)
        } else {
            0
        };
        let ghost mid = nodes@;
        let rm = if right > 0 {
            Tree::update_max(nodes, i + 1, right)
        } else {
            0
        };
        let ghost before = nodes@;
        let mut m = first;
        if lm > m {
            m = lm;
        }
        if rm > m {
            m = rm;
        }
        nodes[i].max = m;
        proof {
            let d = nodes@;
            assert forall|k: int| s <= k < s + l implies (#[trigger] d[k]).element.end == old(
                nodes,
            )[k].element.end by {
                assert(d[k].element == before[k].element);
                assert(before[k].element == mid[k].element);
            }
            assert forall|k: int| s <= k < i implies #[trigger] mid[k] == d[k] by {
                assert(before[k] == mid[k]);
            }
            assert forall|k: int| i + 1 <= k < s + l implies #[trigger] before[k] == d[k] by {}
            if left > 0 {
                lemma_maxima_frame(mid, d, s as int, left as int);
            }
            if right > 0 {
                lemma_maxima_frame(before, d, i + 1, right as int);
            }
            lemma_max_end_split(d, s as int, i as int, s + l);
            assert forall|k: int| s <= k < i implies (#[trigger] mid[k]).element.end
                == d[k].element.end by {}
            lemma_max_end_frame(mid, d, s as int, i as int);
            assert forall|k: int| i + 1 <= k < s + l implies (#[trigger] before[k]).element.end
                == d[k].element.end by {}
            lemma_max_end_frame(before, d, i + 1, s + l);
            assert(d[i as int].element.end == first);
            assert(left > 0 ==> lm == max_end(d, s as int, i as int));
            assert(right > 0 ==> rm == max_end(d, i + 1, s + l));
            assert(m == max_end(d, s as int, s + l));
            assert(maxima_hold(d, s as int, i - s));
            assert(maxima_hold(d, i + 1, s + l - i - 1));
        }
        m
    }

    /// Builds the tree from its elements, given in any order.
    pub fn from_iter(elements: Vec<Element<V>>) -> (tree: Tree<V>)
        ensures
            tree@.to_multiset() == elements@.to_multiset(),
            forall|i: int, j: int|
                0 <= i <= j < tree@.len() ==> (#[trigger] tree@[i]).start <= (
                #[trigger] tree@[j]).start,
    {
        let mut sorted = elements;
        sort_by_start(&mut sorted);
        let ghost order = sorted@;
        let mut nodes: Vec<Node<V>> = Vec::new();
        for e in it: sorted
            invariant
                it.seq() == order,
                nodes.len() == it.index(),
                forall|k: int| 0 <= k < nodes.len() ==> (#[trigger] nodes[k]).element == order[k],
        {
            nodes.push(Node { max: e.end, element: e });
        }
        if nodes.len() > 0 {
            let n = nodes.len();
            Tree::update_max(&mut nodes, 0, n);
        }
        let tree = Tree { data: nodes };
        assert(tree@ =~= order);
        tree
    }

    /// The number of elements.
    pub fn len(&self) -> (n: usize)
        ensures
            n == self@.len(),
    {
        self.data.len()
    }

    /// The element at place `k` in the order of the starts.
    pub fn get(&self, k: usize) -> (e: Option<&Element<V>>)
        ensures
            e.is_some() <==> k < self@.len(),
            e matches Some(x) ==> *x == self@[k as int],
    {
        if k < self.data.len() {
            Some(&self.data[k].element)
        } else {
            None
        }
    }

    fn collect<'a>(&'a self, q: &Query, s: usize, l: usize, out: &mut Vec<&'a Element<V>>)
        requires
            s + l <= self.data.len(),
            sorted_by_start(self.data@),
            maxima_hold(self.data@, s as int, l as int),
        ensures
            pointed_at(final(out)@) == pointed_at(old(out)@) + elements_at(
                self.data@,
                hits_in(self.data@, *q, s as int, l as int),
            ),
        decreases l,
    {
        let ghost data = self.data@;
        let ghost start = pointed_at(out@);
        if l == 0 {
            assert(pointed_at(out@) =~= start + elements_at(data, hits_in(data, *q, s as int, 0)));
            return ;
        }
        let i = s + l / 2;
        let node = &self.data[i];
        let ghost here = if q.selects(node.element.start, node.element.end) {
            seq![i as int]
        } else {
            Seq::<int>::empty()
        };
        let ghost right = hits_in(data, *q, i + 1, s + l - i - 1);
        let ghost left = hits_in(data, *q, s as int, i - s);
        if q.point() < node.max {
            self.collect(q, s, i - s, out);
            assert(pointed_at(out@) =~= start + elements_at(data, left));
            if q.go_right(node.element.start) {
                if q.intersect(node.element.start, node.element.end) {
                    out.push(&node.element);
                }
                proof {
                    assert(elements_at(data, left + here) =~= elements_at(data, left)
                        + elements_at(data, here));
                    assert(pointed_at(out@) =~= start + elements_at(data, left) + elements_at(
                        data,
                        here,
                    ));
                }
                self.collect(q, i + 1, s + l - i - 1, out);
                proof {
                    assert(elements_at(data, left + here + right) =~= elements_at(
                        data,
                        left + here,
                    ) + elements_at(data, right));
                }
            } else {
                proof {
                    assert forall|k: int| i + 1 <= k < s + l implies !q.selects(
                        (#[trigger] data[k]).element.start,
                        data[k].element.end,
                    ) by {
                        assert(data[i as int].element.start <= data[k].element.start);
                    }
                    lemma_no_hits(data, *q, i + 1, s + l - i - 1);
                    assert(left + here + right =~= left);
                    assert(pointed_at(out@) =~= start + elements_at(data, left + here + right));
                }
            }
        } else {
            proof {
                assert forall|k: int| s <= k < s + l implies !q.selects(
                    (#[trigger] data[k]).element.start,
                    data[k].element.end,
                ) by {
                    lemma_max_end_bounds(data, s as int, s + l, k);
                }
                lemma_no_hits(data, *q, s as int, l as int);
                assert(pointed_at(out@) =~= start + elements_at(
                    data,
                    hits_in(data, *q, s as int, l as int),
                ));
            }
        }
    }

    /// Queries the interval tree for all elements overlapping the range
    /// from `start` up to, not including, `end`.
    pub fn query(&self, start: u64, end: u64) -> (found: Vec<&Element<V>>)
        ensures
            pointed_at(found@) == self.found(Query::Range(start, end)),
    {
        proof {
            use_type_invariant(self);
        }
        let q = Query::Range(start, end);
        let mut out: Vec<&Element<V>> = Vec::new();
        self.collect(&q, 0, self.data.len(), &mut out);
        proof {
            self.lemma_found_in_range(q);
            assert(pointed_at(out@) =~= self.found(q));
        }
        out
    }

    /// Queries the interval tree for all elements containing a given point.
    pub fn query_point(&self, point: u64) -> (found: Vec<&Element<V>>)
        ensures
            pointed_at(found@) == self.found(Query::Point(point)),
    {
        proof {
            use_type_invariant(self);
        }
        let q = Query::Point(point);
        let mut out: Vec<&Element<V>> = Vec::new();
        self.collect(&q, 0, self.data.len(), &mut out);
        proof {
            self.lemma_found_in_range(q);
            assert(pointed_at(out@) =~= self.found(q));
        }
        out
    }

    proof fn lemma_found_in_range(&self, q: Query)
        ensures
            forall|j: int|
                0 <= j < self.hits(q).len() ==> 0 <= #[trigger] self.hits(q)[j] < self.data@.len(),
    {
        assert forall|j: int| 0 <= j < self.hits(q).len() implies 0 <= #[trigger] self.hits(q)[j]
            < self.data@.len() by {
            lemma_hits_sound(self.data@, q, 0, self.data@.len() as int, j);
        }
    }

    /// What a query finds holds an element that the query asks for as
    /// often as the tree holds it, and no other element.
    pub proof fn lemma_found_counts(&self, q: Query, e: Element<V>)
        ensures
            self.found(q).to_multiset().count(e) == if q.selects(e.start, e.end) {
                self@.to_multiset().count(e)
            } else {
                0
            },
    {
        let data = self.data@;
        let n = data.len() as int;
        self.lemma_found_in_range(q);
        assert(self.found(q) =~= elements_at(data, hits_in(data, q, 0, n)));
        assert(self@ =~= Seq::new(n as nat, |k: int| data[k].element));
        lemma_hits_occur(data, q, 0, n, e);
        lemma_selected_all(data, q, n, e);
        lemma_occurrences_count(self.found(q), e);
        lemma_occurrences_count(self@, e);
    }

    /// What a query finds does not depend on the order in which the tree
    /// was built: two trees that hold the same elements, each as often as
    /// the other, find the same elements, each as often as the other.
    pub proof fn lemma_query_stable(&self, other: &Tree<V>, q: Query)
        requires
            self@.to_multiset() == other@.to_multiset(),
        ensures
            self.found(q).to_multiset() == other.found(q).to_multiset(),
    {
        assert forall|e: Element<V>|
            self.found(q).to_multiset().count(e) == other.found(q).to_multiset().count(e) by {
            self.lemma_found_counts(q, e);
            other.lemma_found_counts(q, e);
        }
        assert(self.found(q).to_multiset() =~= other.found(q).to_multiset());
    }

    /// A query finds exactly the elements that it asks for, each once and
    /// in ascending order: a place of the tree is among the places found
    /// if and only if the range of its element contains the point, or
    /// overlaps the range, of the query, and the places found ascend.
    pub proof fn lemma_query_exact(&self, q: Query)
        ensures
            forall|k: int|
                #![trigger self.hits(q).contains(k)]
                self.hits(q).contains(k) <==> 0 <= k < self@.len() && q.selects(
                    self@[k].start,
                    self@[k].end,
                ),
            forall|a: int, b: int|
                0 <= a < b < self.hits(q).len() ==> self.hits(q)[a] < self.hits(q)[b],
            self.hits(q).no_duplicates(),
    {
        let data = self.data@;
        let n = data.len() as int;
        let hits = self.hits(q);
        assert forall|k: int| #![trigger hits.contains(k)] hits.contains(k) <==> 0 <= k < n
            && q.selects(data[k].element.start, data[k].element.end) by {
            if hits.contains(k) {
                let j = choose|j: int| 0 <= j < hits.len() && hits[j] == k;
                lemma_hits_sound(data, q, 0, n, j);
            }
            if 0 <= k < n && q.selects(data[k].element.start, data[k].element.end) {
                lemma_hits_complete(data, q, 0, n, k);
            }
        }
        assert forall|a: int, b: int| 0 <= a < b < hits.len() implies hits[a] < hits[b] by {
            lemma_hits_ascend(data, q, 0, n, a, b);
        }
        assert forall|a: int, b: int| 0 <= a < hits.len() && 0 <= b < hits.len() && a != b implies hits[a]
            != hits[b] by {
            if a < b {
                lemma_hits_ascend(data, q, 0, n, a, b);
            } else {
                lemma_hits_ascend(data, q, 0, n, b, a);
            }
        }
    }
}

} // verus!
