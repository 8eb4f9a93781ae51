//! Path segments, their parser, and the routing tree built from them.

use std::collections::{HashMap, VecDeque};
use vstd::prelude::*;
use vstd::std_specs::vecdeque::VecDequeAdditionalSpecFns;

use crate::text::{
    chars_of, find_char, first_index_from, lemma_first_index_from, new_string_map, push_char,
    string_from_chars, string_map_insert, string_map_view,
};

verus! {

broadcast use vstd::string::group_string_axioms;

/// The variables that a matched pattern segment binds, by name.
pub type PathVariables = HashMap<String, String>;

/// The mathematical content of a [`Segment`].
pub enum SegmentView {
    Static(Seq<char>),
    Pattern(Seq<char>),
}

impl SegmentView {
    pub open spec fn is_static(self) -> bool {
        self is Static
    }

    /// The text a segment carries: the whole text of a static segment,
    /// the variable name of a pattern.
    pub open spec fn text(self) -> Seq<char> {
        match self {
            SegmentView::Static(s) => s,
            SegmentView::Pattern(s) => s,
        }
    }
}

/// One `/`-delimited piece of a route: either literal text (with its leading
/// `/`) or a `{name}` pattern that binds whatever stands in its place.
#[derive(Debug, PartialEq, Eq)]
pub enum Segment {
    Static(String),
    Pattern { reference: String },
}

impl View for Segment {
    type V = SegmentView;

    open spec fn view(&self) -> SegmentView {
        match self {
            Segment::Static(s) => SegmentView::Static(s@),
            Segment::Pattern { reference } => SegmentView::Pattern(reference@),
        }
    }
}

/// Why a piece of text is not a segment.
#[derive(Clone, Copy, Debug, PartialEq, Eq, Structural)]
pub enum SegmentParseError {
    InvalidStart(char),
    EmptyInput,
    ExpectedClosingCurly,
    EmptyPattern,
}

/// The result of parsing `s` as one segment.
///
/// Text that starts with `/` and holds no `{` is static, kept whole. Otherwise the
/// first `{` opens a pattern whose name runs up to the next `}`; whatever follows
/// that `}` is ignored.
pub open spec fn spec_parse_segment(s: Seq<char>) -> Result<SegmentView, SegmentParseError> {
    if s.len() == 0 {
        Err(SegmentParseError::EmptyInput)
    } else if s[0] != '/' {
        Err(SegmentParseError::InvalidStart(s[0]))
    } else {
        match first_index_from(s, '{', 0) {
            None => Ok(SegmentView::Static(s)),
            Some(i) => match first_index_from(s, '}', i + 1) {
                None => Err(SegmentParseError::ExpectedClosingCurly),
                Some(j) => if j == i + 1 {
                    Err(SegmentParseError::EmptyPattern)
                } else {
                    Ok(SegmentView::Pattern(s.subrange(i + 1, j)))
                },
            },
        }
    }
}

/// The end of the raw segment that starts at `from - 1`: the next `/` at or
/// after `from`, or the end of `s`.
pub open spec fn raw_segment_end(s: Seq<char>, from: int) -> int {
    match first_index_from(s, '/', from) {
        Some(k) => k,
        None => s.len() as int,
    }
}

pub proof fn lemma_raw_segment_end(s: Seq<char>, from: int)
    requires
        0 <= from,
    ensures
        from <= s.len() ==> from <= raw_segment_end(s, from) <= s.len(),
        forall|m: int| from <= m < raw_segment_end(s, from) ==> s[m] != '/',
        raw_segment_end(s, from) < s.len() ==> s[raw_segment_end(s, from)] == '/',
{
    lemma_first_index_from(s, '/', from);
}

/// The raw segments of `s[from..]`: a new segment starts at `from` and at every
/// later `/`.
pub open spec fn raw_segments_from(s: Seq<char>, from: int) -> Seq<Seq<char>>
    decreases s.len() - from,
{
    if from < 0 || from >= s.len() {
        Seq::empty()
    } else {
        let k = raw_segment_end(s, from + 1);
        proof {
            lemma_raw_segment_end(s, from + 1);
        }
        seq![s.subrange(from, k)] + raw_segments_from(s, k)
    }
}

/// The raw segments of a path: it is cut before every `/` but a leading one.
pub open spec fn raw_segments(s: Seq<char>) -> Seq<Seq<char>> {
    raw_segments_from(s, 0)
}

/// The parse of every raw segment of a path, in order.
pub open spec fn parsed_path(s: Seq<char>) -> Seq<Result<SegmentView, SegmentParseError>> {
    raw_segments(s).map_values(|r: Seq<char>| spec_parse_segment(r))
}

pub open spec fn view_parsed(r: Result<Segment, SegmentParseError>) -> Result<SegmentView, SegmentParseError> {
    match r {
        Ok(seg) => Ok(seg@),
        Err(e) => Err(e),
    }
}

impl SegmentParseError {
    /// The error's message.
    pub fn to_string(&self) -> (s: String)
        ensures
            s@ == self.message(),
    {
        match self {
            SegmentParseError::InvalidStart(c) => {
                let mut s = String::from_str("Segment begins with ");
                push_char(&mut s, *c);
                s.append(", should begin with '/'");
                s
            },
            SegmentParseError::EmptyInput => String::from_str("Empty Input"),
            SegmentParseError::ExpectedClosingCurly => String::from_str("Expected '}' at end"),
            SegmentParseError::EmptyPattern => String::from_str("Pattern missing identifier, found '{}'"),
        }
    }

    pub open spec fn message(self) -> Seq<char> {
        match self {
            SegmentParseError::InvalidStart(c) => "Segment begins with "@.push(c) + ", should begin with '/'"@,
            SegmentParseError::EmptyInput => "Empty Input"@,
            SegmentParseError::ExpectedClosingCurly => "Expected '}' at end"@,
            SegmentParseError::EmptyPattern => "Pattern missing identifier, found '{}'"@,
        }
    }
}

impl Segment {
    /// Parses one segment.
    pub fn parse(s: String) -> (r: Result<Self, SegmentParseError>)
        ensures
            view_parsed(r) == spec_parse_segment(s@),
    {
        let v = chars_of(s.as_str());
        if v.len() == 0 {
            return Err(SegmentParseError::EmptyInput);
        }
        if v[0] != '/' {
            return Err(SegmentParseError::InvalidStart(v[0]));
        }
        let open = find_char(&v, '{', 0);
        proof {
            lemma_first_index_from(v@, '{', 0);
        }
        match open {
            None => Ok(Segment::Static(s)),
            Some(i) => match find_char(&v, '}', i + 1) {
                None => Err(SegmentParseError::ExpectedClosingCurly),
                Some(j) => {
                    proof {
                        lemma_first_index_from(v@, '}', i + 1);
                    }
                    if j == i + 1 {
                        Err(SegmentParseError::EmptyPattern)
                    } else {
                        Ok(Segment::Pattern { reference: string_from_chars(&v, i + 1, j) })
                    }
                },
            },
        }
    }

    /// The segment's text: the literal of a static segment, the name of a pattern.
    pub fn get_string(&self) -> (s: &String)
        ensures
            s@ == self@.text(),
    {
        match self {
            Segment::Static(s) => s,
            Segment::Pattern { reference } => reference,
        }
    }

    pub fn is_static(&self) -> (b: bool)
        ensures
            b == self@.is_static(),
    {
        match self {
            Segment::Static(_) => true,
            Segment::Pattern { .. } => false,
        }
    }

    /// Whether two segments are equal: same kind and same text.
    pub(crate) fn same_as(&self, other: &Segment) -> (b: bool)
        ensures
            b == (self@ == other@),
    {
        match (self, other) {
            (Segment::Static(a), Segment::Static(b)) => a.eq(b),
            (Segment::Pattern { reference: a }, Segment::Pattern { reference: b }) => a.eq(b),
            _ => false,
        }
    }

    /// Cuts a path into segments and parses each.
    pub fn parse_path(input: &str) -> (r: Vec<Result<Segment, SegmentParseError>>)
        ensures
            r@.map_values(|x: Result<Segment, SegmentParseError>| view_parsed(x)) == parsed_path(input@),
    {
        let raw = parse_raw_segs(input);
        let mut out: Vec<Result<Segment, SegmentParseError>> = Vec::new();
        let ghost raws = raw_segments(input@);
        let mut i: usize = 0;
        while i < raw.len()
            invariant
                raw@.map_values(|x: String| x@) == raws,
                0 <= i <= raw@.len(),
                out@.len() == i,
                forall|k: int| 0 <= k < i ==> view_parsed(#[trigger] out@[k]) == spec_parse_segment(raws[k]),
            decreases raw@.len() - i,
        {
            let seg = raw[i].clone();
            assert(seg@ == raws[i as int]);
            out.push(Segment::parse(seg));
            i = i + 1;
        }
        assert(out@.map_values(|x: Result<Segment, SegmentParseError>| view_parsed(x)) =~= parsed_path(input@));
        out
    }
}

/// Cuts a path before every `/` but a leading one.
fn parse_raw_segs(input: &str) -> (segs: Vec<String>)
    ensures
        segs@.map_values(|x: String| x@) == raw_segments(input@),
{
    let v = chars_of(input);
    let n = v.len();
    let mut segs: Vec<String> = Vec::new();
    let mut i: usize = 0;
    while i < n
        invariant
            n == v@.len(),
            v@ == input@,
            0 <= i <= n,
            segs@.map_values(|x: String| x@) + raw_segments_from(v@, i as int) == raw_segments(v@),
        decreases n - i,
    {
        let k = match find_char(&v, '/', i + 1) {
            Some(k) => k,
            None => n,
        };
        proof {
            lemma_raw_segment_end(v@, i + 1);
        }
        let ghost before = segs@.map_values(|x: String| x@);
        let piece = string_from_chars(&v, i, k);
        segs.push(piece);
        assert(segs@.map_values(|x: String| x@) =~= before.push(v@.subrange(i as int, k as int)));
        assert(raw_segments_from(v@, i as int) == seq![v@.subrange(i as int, k as int)] + raw_segments_from(v@, k as int));
        assert(before + raw_segments_from(v@, i as int) =~= before.push(v@.subrange(i as int, k as int)) + raw_segments_from(v@, k as int));
        i = k;
    }
    assert(segs@.map_values(|x: String| x@) =~= raw_segments(v@));
    segs
}

} // verus!

verus! {

/// The handlers registered for one route, by method.
#[derive(Debug)]
pub struct ServiceCollection<S> {
    pub get: Option<S>,
    pub post: Option<S>,
}

/// Collections are not told apart by their handlers: any two compare equal,
/// so that routing trees compare by their shape alone.
impl<S> PartialEq for ServiceCollection<S> {
    fn eq(&self, other: &Self) -> (r: bool) {
        true
    }
}

impl<S> vstd::std_specs::cmp::PartialEqSpecImpl for ServiceCollection<S> {
    open spec fn obeys_eq_spec() -> bool {
        true
    }

    open spec fn eq_spec(&self, other: &Self) -> bool {
        true
    }
}

/// The mathematical content of an [`HttpNode`]: its segment, its children in
/// order, and the services registered at it.
pub struct NodeView<S> {
    pub segment: SegmentView,
    pub leaves: Seq<NodeView<S>>,
    pub methods: ServiceCollection<S>,
}

/// One node of the routing tree.
#[derive(Debug, PartialEq)]
pub struct HttpNode<S> {
    pub segment: Segment,
    pub leaves: VecDeque<HttpNode<S>>,
    pub methods: ServiceCollection<S>,
}

/// The model of a node, built from the models of its children.
pub open spec fn node_model<S>(n: HttpNode<S>) -> NodeView<S>
    decreases n,
{
    NodeView {
        segment: n.segment@,
        leaves: Seq::new(
            n.leaves@.len(),
            |i: int|
                if 0 <= i < n.leaves@.len() {
                    proof {
                        broadcast use vstd::std_specs::vecdeque::axiom_vec_dequeue_index_decreases;
                        assert(decreases_to!(n.leaves => n.leaves[i]));
                    }
                    node_model(n.leaves[i])
                } else {
                    NodeView { segment: n.segment@, leaves: Seq::empty(), methods: n.methods }
                },
        ),
        methods: n.methods,
    }
}

impl<S> View for HttpNode<S> {
    type V = NodeView<S>;

    open spec fn view(&self) -> NodeView<S> {
        node_model(*self)
    }
}

} // verus!

verus! {

/// The view of a node is made of the views of its parts.
pub proof fn lemma_node_view<S>(n: HttpNode<S>)
    ensures
        #![trigger n@]
        n@.segment == n.segment@,
        n@.methods == n.methods,
        n@.leaves.len() == n.leaves@.len(),
        forall|i: int| 0 <= i < n.leaves@.len() ==> n@.leaves[i] == #[trigger] n.leaves@[i]@,
{
}

/// A node with no children and no services.
pub open spec fn fresh_node<S>(seg: SegmentView) -> NodeView<S> {
    NodeView {
        segment: seg,
        leaves: Seq::empty(),
        methods: ServiceCollection { get: None, post: None },
    }
}

/// The index of the first child of `leaves[from..]` whose segment is `seg`.
pub open spec fn find_leaf<S>(leaves: Seq<NodeView<S>>, seg: SegmentView, from: int) -> Option<int>
    decreases leaves.len() - from,
{
    if from < 0 || from >= leaves.len() {
        None
    } else if leaves[from].segment == seg {
        Some(from)
    } else {
        find_leaf(leaves, seg, from + 1)
    }
}

pub proof fn lemma_find_leaf<S>(leaves: Seq<NodeView<S>>, seg: SegmentView, from: int)
    requires
        0 <= from,
    ensures
        match find_leaf(leaves, seg, from) {
            Some(k) => from <= k < leaves.len() && leaves[k].segment == seg && forall|m: int|
                from <= m < k ==> leaves[m].segment != seg,
            None => forall|m: int| from <= m < leaves.len() ==> leaves[m].segment != seg,
        },
    decreases leaves.len() - from,
{
    if from < leaves.len() && leaves[from].segment != seg {
        lemma_find_leaf(leaves, seg, from + 1);
    }
}

/// What `get_leave_idx_or_add` makes of a node: the node afterwards, and the
/// index of the child for `seg`. A missing static segment goes in front of the
/// children, a missing pattern behind them.
pub open spec fn leaf_idx_or_add<S>(n: NodeView<S>, seg: SegmentView) -> (NodeView<S>, int) {
    match find_leaf(n.leaves, seg, 0) {
        Some(k) => (n, k),
        None => {
            let leaves = if seg.is_static() {
                seq![fresh_node(seg)] + n.leaves
            } else {
                n.leaves.push(fresh_node(seg))
            };
            (NodeView { segment: n.segment, leaves: leaves, methods: n.methods }, if seg.is_static() {
                0
            } else {
                leaves.len() - 1
            })
        },
    }
}

/// `n` with its services replaced.
pub open spec fn with_methods<S>(n: NodeView<S>, services: ServiceCollection<S>) -> NodeView<S> {
    NodeView { segment: n.segment, leaves: n.leaves, methods: services }
}

/// What registering `services` under the parsed segments `segs` does to the
/// subtree `n`, and what it answers.
///
/// The walk stops at the first segment equal to the current node's own
/// segment, and registers there; otherwise it descends through
/// `leaf_idx_or_add`, and registers at the node it ends on. A segment that did
/// not parse ends the walk with its error; the children added before it stay.
pub open spec fn add_at<S>(
    n: NodeView<S>,
    segs: Seq<Result<SegmentView, SegmentParseError>>,
    services: ServiceCollection<S>,
) -> (NodeView<S>, Result<(), SegmentParseError>)
    decreases segs.len(),
{
    if segs.len() == 0 {
        (with_methods(n, services), Ok(()))
    } else {
        match segs[0] {
            Err(e) => (n, Err(e)),
            Ok(seg) => if n.segment == seg {
                (with_methods(n, services), Ok(()))
            } else {
                let (n1, idx) = leaf_idx_or_add(n, seg);
                let (child, r) = add_at(n1.leaves[idx], segs.drop_first(), services);
                (NodeView { segment: n1.segment, leaves: n1.leaves.update(idx, child), methods: n1.methods }, r)
            },
        }
    }
}

/// The index of the first child of `leaves[from..]` that an incoming segment
/// `seg` enters: a static child equal to it, or any pattern child.
pub open spec fn leaf_for<S>(leaves: Seq<NodeView<S>>, seg: SegmentView, from: int) -> Option<int>
    decreases leaves.len() - from,
{
    if from < 0 || from >= leaves.len() {
        None
    } else if !leaves[from].segment.is_static() || leaves[from].segment == seg {
        Some(from)
    } else {
        leaf_for(leaves, seg, from + 1)
    }
}

pub proof fn lemma_leaf_for<S>(leaves: Seq<NodeView<S>>, seg: SegmentView, from: int)
    requires
        0 <= from,
    ensures
        match leaf_for(leaves, seg, from) {
            Some(k) => from <= k < leaves.len() && (!leaves[k].segment.is_static()
                || leaves[k].segment == seg) && forall|m: int|
                from <= m < k ==> leaves[m].segment.is_static() && leaves[m].segment != seg,
            None => forall|m: int|
                from <= m < leaves.len() ==> leaves[m].segment.is_static() && leaves[m].segment
                    != seg,
        },
    decreases leaves.len() - from,
{
    if from < leaves.len() && leaves[from].segment.is_static() && leaves[from].segment != seg {
        lemma_leaf_for(leaves, seg, from + 1);
    }
}

/// The value a pattern binds to an incoming segment: its text without its
/// first character.
pub open spec fn bound_value(seg: SegmentView) -> Seq<char> {
    seg.text().drop_first()
}

/// Whether dropping the first character of `t` cuts `t` at a byte boundary,
/// so that the byte slice `[1..]` is defined.
pub open spec fn first_char_is_one_byte(t: Seq<char>) -> bool {
    t.len() > 0 && (t[0] as u32) < 0x80
}

/// The variables after entering child `c` with incoming segment `seg`.
pub open spec fn vars_after<S>(c: NodeView<S>, seg: SegmentView, vars: Map<Seq<char>, Seq<char>>) -> Map<Seq<char>, Seq<char>> {
    match c.segment {
        SegmentView::Pattern(name) => vars.insert(name, bound_value(seg)),
        SegmentView::Static(_) => vars,
    }
}

/// Walking down from `n` along `segs`: the node reached and the variables bound,
/// `None` where no child takes a segment, or the error of a segment that did
/// not parse.
pub open spec fn walk<S>(
    n: NodeView<S>,
    segs: Seq<Result<SegmentView, SegmentParseError>>,
    vars: Map<Seq<char>, Seq<char>>,
) -> Option<Result<(NodeView<S>, Map<Seq<char>, Seq<char>>), SegmentParseError>>
    decreases segs.len(),
{
    if segs.len() == 0 {
        Some(Ok((n, vars)))
    } else {
        match segs[0] {
            Err(e) => Some(Err(e)),
            Ok(seg) => match leaf_for(n.leaves, seg, 0) {
                None => None,
                Some(k) => walk(n.leaves[k], segs.drop_first(), vars_after(n.leaves[k], seg, vars)),
            },
        }
    }
}

/// Whether the walk binds a pattern to a segment whose text does not start
/// with a one-byte character. A pattern's value is the text cut at byte 1,
/// which is no character boundary there, so lookups are not asked to take
/// such a walk.
pub open spec fn walk_breaks<S>(n: NodeView<S>, segs: Seq<Result<SegmentView, SegmentParseError>>) -> bool
    decreases segs.len(),
{
    if segs.len() == 0 {
        false
    } else {
        match segs[0] {
            Err(e) => false,
            Ok(seg) => match leaf_for(n.leaves, seg, 0) {
                None => false,
                Some(k) => (!n.leaves[k].segment.is_static() && !first_char_is_one_byte(seg.text()))
                    || walk_breaks(n.leaves[k], segs.drop_first()),
            },
        }
    }
}

/// The lookup of parsed segments from the root: nothing for an empty path, the
/// root itself where the first segment is the root's, and otherwise the walk.
pub open spec fn lookup<S>(
    root: NodeView<S>,
    segs: Seq<Result<SegmentView, SegmentParseError>>,
) -> Option<Result<(NodeView<S>, Map<Seq<char>, Seq<char>>), SegmentParseError>> {
    if segs.len() == 0 {
        None
    } else {
        match segs[0] {
            Err(e) => Some(Err(e)),
            Ok(seg) => if root.segment == seg {
                Some(Ok((root, Map::empty())))
            } else {
                walk(root, segs, Map::empty())
            },
        }
    }
}

/// Whether the lookup reaches the byte slicing that panics.
pub open spec fn lookup_breaks<S>(root: NodeView<S>, segs: Seq<Result<SegmentView, SegmentParseError>>) -> bool {
    segs.len() > 0 && match segs[0] {
        Err(e) => false,
        Ok(seg) => root.segment != seg && walk_breaks(root, segs),
    }
}

} // verus!

verus! {

impl<S> Default for ServiceCollection<S> {
    /// A collection with no services.
    fn default() -> (r: Self)
        ensures
            r.get is None,
            r.post is None,
    {
        ServiceCollection { get: None, post: None }
    }
}

impl<S> ServiceCollection<S> {
    /// The collection with `service` as its GET handler.
    pub fn set_get(self, service: S) -> (r: Self)
        ensures
            r.get == Some(service),
            r.post == self.post,
    {
        ServiceCollection { get: Some(service), post: self.post }
    }

    /// The collection with `service` as its POST handler.
    pub fn set_post(self, service: S) -> (r: Self)
        ensures
            r.get == self.get,
            r.post == Some(service),
    {
        ServiceCollection { get: self.get, post: Some(service) }
    }

    pub fn get(&self) -> (r: Option<&S>)
        ensures
            r is Some == self.get is Some,
            r is Some ==> *r.unwrap() == self.get.unwrap(),
    {
        match &self.get {
            Some(s) => Some(s),
            None => None,
        }
    }

    pub fn post(&self) -> (r: Option<&S>)
        ensures
            r is Some == self.post is Some,
            r is Some ==> *r.unwrap() == self.post.unwrap(),
    {
        match &self.post {
            Some(s) => Some(s),
            None => None,
        }
    }
}

impl Segment {
    /// A segment equal to this one.
    pub(crate) fn duplicate(&self) -> (r: Segment)
        ensures
            r@ == self@,
    {
        match self {
            Segment::Static(s) => Segment::Static(s.clone()),
            Segment::Pattern { reference } => Segment::Pattern { reference: reference.clone() },
        }
    }
}

impl<S> Default for HttpNode<S> {
    /// The root node: segment `/`, no children, no services.
    fn default() -> (r: Self)
        ensures
            r@ == fresh_node::<S>(SegmentView::Static("/"@)),
    {
        let r = HttpNode {
            segment: Segment::Static(String::from_str("/")),
            leaves: VecDeque::new(),
            methods: ServiceCollection::default(),
        };
        assert(r@.leaves =~= Seq::<NodeView<S>>::empty());
        r
    }
}

impl<S> HttpNode<S> {
    pub fn new(segment: Segment, methods: ServiceCollection<S>) -> (r: Self)
        ensures
            r@ == with_methods(fresh_node::<S>(segment@), methods),
    {
        let r = HttpNode { segment, leaves: VecDeque::new(), methods };
        assert(r@.leaves =~= Seq::<NodeView<S>>::empty());
        r
    }

    /// The first child whose segment equals `segment`.
    pub fn get_leave(&self, segment: &Segment) -> (r: Option<&HttpNode<S>>)
        ensures
            match find_leaf(self@.leaves, segment@, 0) {
                Some(k) => r is Some && r.unwrap()@ == self@.leaves[k],
                None => r is None,
            },
    {
        proof {
            lemma_node_view(*self);
        }
        let mut i: usize = 0;
        while i < self.leaves.len()
            invariant
                0 <= i <= self.leaves@.len(),
                find_leaf(self@.leaves, segment@, 0) == find_leaf(self@.leaves, segment@, i as int),
            decreases self.leaves@.len() - i,
        {
            proof {
                lemma_node_view(*self);
                lemma_node_view(self.leaves@[i as int]);
            }
            if self.leaves[i].segment.same_as(segment) {
                return Some(&self.leaves[i]);
            }
            i = i + 1;
        }
        None
    }

    /// The child that the incoming `segment` enters: the first that is a static
    /// segment equal to it or is a pattern. Entering a pattern binds its name to
    /// the segment's text without its first character.
    pub fn get_leave_path_vars(&self, segment: Segment, path_vars: &mut PathVariables) -> (r: Option<&HttpNode<S>>)
        requires
            leaf_for(self@.leaves, segment@, 0) matches Some(k) && !self@.leaves[k].segment.is_static()
                ==> first_char_is_one_byte(segment@.text()),
        ensures
            match leaf_for(self@.leaves, segment@, 0) {
                Some(k) => r is Some && r.unwrap()@ == self@.leaves[k] && string_map_view(*final(path_vars))
                    == vars_after(self@.leaves[k], segment@, string_map_view(*old(path_vars))),
                None => r is None && string_map_view(*final(path_vars)) == string_map_view(*old(path_vars)),
            },
    {
        proof {
            lemma_node_view(*self);
        }
        let mut i: usize = 0;
        while i < self.leaves.len()
            invariant
                0 <= i <= self.leaves@.len(),
                leaf_for(self@.leaves, segment@, 0) == leaf_for(self@.leaves, segment@, i as int),
                leaf_for(self@.leaves, segment@, 0) matches Some(k) && !self@.leaves[k].segment.is_static()
                    ==> first_char_is_one_byte(segment@.text()),
                string_map_view(*path_vars) == string_map_view(*old(path_vars)),
            decreases self.leaves@.len() - i,
        {
            proof {
                lemma_node_view(*self);
                lemma_node_view(self.leaves@[i as int]);
            }
            let leave = &self.leaves[i];
            if leave.segment.is_static() && leave.segment.same_as(&segment) {
                return Some(leave);
            } else if let Segment::Pattern { reference } = &leave.segment {
                let text = chars_of(segment.get_string().as_str());
                let value = string_from_chars(&text, 1, text.len());
                string_map_insert(path_vars, reference.clone(), value);
                assert(value@ == bound_value(segment@));
                return Some(leave);
            }
            i = i + 1;
        }
        None
    }

    /// The index of the child with segment `segment`, adding one if there is none.
    pub fn get_leave_idx_or_add(&mut self, segment: Segment) -> (r: usize)
        ensures
            (final(self)@, r as int) == leaf_idx_or_add(old(self)@, segment@),
            r < final(self).leaves@.len(),
            final(self)@.leaves[r as int].segment == segment@,
    {
        proof {
            lemma_node_view(*self);
        }
        let mut idx: usize = 0;
        while idx < self.leaves.len()
            invariant
                0 <= idx <= self.leaves@.len(),
                find_leaf(self@.leaves, segment@, 0) == find_leaf(self@.leaves, segment@, idx as int),
            decreases self.leaves@.len() - idx,
        {
            proof {
                lemma_node_view(*self);
                lemma_node_view(self.leaves@[idx as int]);
            }
            if self.leaves[idx].segment.same_as(&segment) {
                return idx;
            }
            idx = idx + 1;
        }
        let ghost before = self@;
        let segment_is_static = segment.is_static();
        let node = HttpNode::new(segment, ServiceCollection::default());
        let ghost node_view = node@;
        if segment_is_static {
            self.leaves.push_front(node);
            proof {
                lemma_node_view(*self);
            }
            assert(self@.leaves =~= seq![node_view] + before.leaves);
            0
        } else {
            self.leaves.push_back(node);
            proof {
                lemma_node_view(*self);
            }
            assert(self@.leaves =~= before.leaves.push(node_view));
            self.leaves.len() - 1
        }
    }
}

} // verus!

verus! {

/// The routing tree: a root node for `/`, with a child for each segment that
/// follows it.
#[derive(Debug, PartialEq)]
pub struct HttpNodeTree<S> {
    pub root: HttpNode<S>,
}

impl<S> View for HttpNodeTree<S> {
    type V = NodeView<S>;

    open spec fn view(&self) -> NodeView<S> {
        self.root@
    }
}

/// The parsed segments as the views of their results.
pub open spec fn view_segments(segs: Seq<Result<Segment, SegmentParseError>>) -> Seq<Result<SegmentView, SegmentParseError>> {
    segs.map_values(|x: Result<Segment, SegmentParseError>| view_parsed(x))
}

/// The view of what a lookup answers.
pub open spec fn view_found<'a, S>(
    r: Option<Result<(&'a HttpNode<S>, PathVariables), SegmentParseError>>,
) -> Option<Result<(NodeView<S>, Map<Seq<char>, Seq<char>>), SegmentParseError>> {
    match r {
        None => None,
        Some(Err(e)) => Some(Err(e)),
        Some(Ok((n, vars))) => Some(Ok((n@, string_map_view(vars)))),
    }
}

impl<S> Default for HttpNodeTree<S> {
    fn default() -> (r: Self)
        ensures
            r@ == fresh_node::<S>(SegmentView::Static("/"@)),
    {
        HttpNodeTree { root: HttpNode::default() }
    }
}

/// Registers `services` under `segs[i..]` in the subtree `node`.
fn add_segments<S>(
    node: &mut HttpNode<S>,
    segs: &Vec<Result<Segment, SegmentParseError>>,
    i: usize,
    services: ServiceCollection<S>,
) -> (r: Result<(), SegmentParseError>)
    requires
        i <= segs@.len(),
    ensures
        (final(node)@, r) == add_at(old(node)@, view_segments(segs@).skip(i as int), services),
    decreases segs@.len() - i,
{
    let ghost rest = view_segments(segs@).skip(i as int);
    proof {
        lemma_node_view(*node);
    }
    if i == segs.len() {
        node.methods = services;
        proof {
            lemma_node_view(*node);
        }
        assert(node@.leaves =~= old(node)@.leaves);
        assert(node@ =~= with_methods(old(node)@, services));
        return Ok(());
    }
    assert(rest[0] == view_parsed(segs@[i as int]));
    assert(rest.drop_first() =~= view_segments(segs@).skip(i + 1));
    match &segs[i] {
        Err(e) => Err(*e),
        Ok(seg) => {
            if node.segment.same_as(seg) {
                node.methods = services;
                proof {
                    lemma_node_view(*node);
                }
                assert(node@.leaves =~= old(node)@.leaves);
        assert(node@ =~= with_methods(old(node)@, services));
                Ok(())
            } else {
                let idx = node.get_leave_idx_or_add(seg.duplicate());
                let ghost n1 = node@;
                proof {
                    lemma_node_view(*node);
                }
                let ghost before = node.leaves@;
                match node.leaves.remove(idx) {
                    Some(mut child) => {
                        let r = add_segments(&mut child, segs, i + 1, services);
                        let ghost child_view = child@;
                        node.leaves.insert(idx, child);
                        proof {
                            lemma_node_view(*node);
                        }
                        assert(node.leaves@ =~= before.update(idx as int, child));
                        assert(node@.leaves =~= n1.leaves.update(idx as int, child_view));
                        r
                    },
                    None => {
                        assert(false);
                        Ok(())
                    },
                }
            }
        },
    }
}

impl<S> HttpNodeTree<S> {
    /// A tree holding only the root `/`.
    pub fn new() -> (r: Self)
        ensures
            r@ == fresh_node::<S>(SegmentView::Static("/"@)),
    {
        HttpNodeTree { root: HttpNode::default() }
    }

    /// Registers `services` under `path`.
    pub fn add_service(&mut self, path: &str, services: ServiceCollection<S>) -> (r: Result<(), SegmentParseError>)
        ensures
            (final(self)@, r) == add_at(old(self)@, parsed_path(path@), services),
    {
        let segs = Segment::parse_path(path);
        assert(view_segments(segs@).skip(0) =~= parsed_path(path@));
        add_segments(&mut self.root, &segs, 0, services)
    }

    /// The node that `path` leads to and the variables its patterns bind.
    pub fn get_node(&self, path: &str) -> (r: Option<Result<(&HttpNode<S>, PathVariables), SegmentParseError>>)
        requires
            !lookup_breaks(self@, parsed_path(path@)),
        ensures
            view_found(r) == lookup(self@, parsed_path(path@)),
    {
        let segs = Segment::parse_path(path);
        let ghost sv = view_segments(segs@);
        assert(sv == parsed_path(path@));
        if segs.len() == 0 {
            return None;
        }
        match &segs[0] {
            Ok(seg) => {
                if self.root.segment.same_as(seg) {
                    let vars = new_string_map();
                    return Some(Ok((&self.root, vars)));
                }
            },
            Err(e) => {
                return Some(Err(*e));
            },
        }
        let mut current: &HttpNode<S> = &self.root;
        let mut path_vars = new_string_map();
        let mut i: usize = 0;
        assert(sv.skip(0) =~= sv);
        while i < segs.len()
            invariant
                sv == view_segments(segs@),
                sv == parsed_path(path@),
                0 <= i <= segs@.len(),
                lookup(self@, sv) == walk(current@, sv.skip(i as int), string_map_view(path_vars)),
                !walk_breaks(current@, sv.skip(i as int)),
            decreases segs@.len() - i,
        {
            let ghost rest = sv.skip(i as int);
            assert(rest[0] == view_parsed(segs@[i as int]));
            assert(rest.drop_first() =~= sv.skip(i + 1));
            match &segs[i] {
                Err(e) => {
                    return Some(Err(*e));
                },
                Ok(seg) => {
                    match current.get_leave_path_vars(seg.duplicate(), &mut path_vars) {
                        None => {
                            return None;
                        },
                        Some(c) => {
                            current = c;
                        },
                    }
                },
            }
            i = i + 1;
        }
        Some(Ok((current, path_vars)))
    }
}

} // verus!

verus! {

impl<S> ServiceCollection<S> {
    /// The handler registered for `method`: GET and POST have one each, no
    /// other method has any.
    pub fn method(&self, method: &super::request::Method) -> (r: Option<&S>)
        ensures
            r is Some == service_for(*self, *method) is Some,
            r is Some ==> *r.unwrap() == service_for(*self, *method).unwrap(),
            *method == super::request::Method::Get ==> (r is Some == self.get is Some) && (r is Some
                ==> *r.unwrap() == self.get.unwrap()),
            *method == super::request::Method::Post ==> (r is Some == self.post is Some) && (r is Some
                ==> *r.unwrap() == self.post.unwrap()),
            *method != super::request::Method::Get && *method != super::request::Method::Post ==> r is None,
    {
        match method {
            super::request::Method::Get => self.get(),
            super::request::Method::Post => self.post(),
            _ => None,
        }
    }
}

/// The handler a collection holds for `method`.
pub open spec fn service_for<S>(c: ServiceCollection<S>, method: super::request::Method) -> Option<S> {
    match method {
        super::request::Method::Get => c.get,
        super::request::Method::Post => c.post,
        _ => None,
    }
}

impl<S> HttpNode<S> {
    /// The index of the child that the incoming `segment` enters.
    fn leaf_index_for(&self, segment: &Segment) -> (r: Option<usize>)
        ensures
            match r {
                Some(k) => leaf_for(self@.leaves, segment@, 0) == Some(k as int),
                None => leaf_for(self@.leaves, segment@, 0) is None,
            },
    {
        proof {
            lemma_node_view(*self);
        }
        let mut i: usize = 0;
        while i < self.leaves.len()
            invariant
                0 <= i <= self.leaves@.len(),
                leaf_for(self@.leaves, segment@, 0) == leaf_for(self@.leaves, segment@, i as int),
            decreases self.leaves@.len() - i,
        {
            proof {
                lemma_node_view(*self);
                lemma_node_view(self.leaves@[i as int]);
            }
            let leave = &self.leaves[i];
            if !leave.segment.is_static() || leave.segment.same_as(segment) {
                return Some(i);
            }
            i = i + 1;
        }
        None
    }
}

/// Whether the first character of `s` is encoded in one byte.
fn first_char_one_byte(s: &String) -> (b: bool)
    ensures
        b == first_char_is_one_byte(s@),
{
    let v = chars_of(s.as_str());
    v.len() > 0 && (v[0] as u32) < 0x80
}

impl<S> HttpNodeTree<S> {
    /// Whether looking up `path` would reach a pattern with a segment whose
    /// text does not start with a one-byte character; `get_node` must not be
    /// asked for such a path.
    pub fn lookup_breaks(&self, path: &str) -> (b: bool)
        ensures
            b == lookup_breaks(self@, parsed_path(path@)),
    {
        let segs = Segment::parse_path(path);
        let ghost sv = view_segments(segs@);
        assert(sv == parsed_path(path@));
        if segs.len() == 0 {
            return false;
        }
        match &segs[0] {
            Ok(seg) => {
                if self.root.segment.same_as(seg) {
                    return false;
                }
            },
            Err(_) => {
                return false;
            },
        }
        let mut current: &HttpNode<S> = &self.root;
        let mut i: usize = 0;
        assert(sv.skip(0) =~= sv);
        while i < segs.len()
            invariant
                sv == view_segments(segs@),
                sv == parsed_path(path@),
                0 <= i <= segs@.len(),
                lookup_breaks(self@, sv) == walk_breaks(current@, sv.skip(i as int)),
            decreases segs@.len() - i,
        {
            let ghost rest = sv.skip(i as int);
            assert(rest[0] == view_parsed(segs@[i as int]));
            assert(rest.drop_first() =~= sv.skip(i + 1));
            proof {
                lemma_node_view(*current);
            }
            match &segs[i] {
                Err(_) => {
                    return false;
                },
                Ok(seg) => {
                    match current.leaf_index_for(seg) {
                        None => {
                            return false;
                        },
                        Some(k) => {
                            proof {
                                lemma_leaf_for(current@.leaves, seg@, 0);
                                lemma_node_view(current.leaves@[k as int]);
                            }
                            if !current.leaves[k].segment.is_static() && !first_char_one_byte(seg.get_string()) {
                                return true;
                            }
                            current = &current.leaves[k];
                        },
                    }
                },
            }
            i = i + 1;
        }
        false
    }
}

} // verus!
