//! What holds of path splitting, segment parsing and the routing tree.

use vstd::prelude::*;

use crate::http::path::{
    add_at, find_leaf, fresh_node, leaf_for, leaf_idx_or_add, lemma_find_leaf, lemma_leaf_for,
    lemma_raw_segment_end, lookup_breaks, parsed_path, raw_segment_end, raw_segments,
    raw_segments_from, spec_parse_segment, walk, walk_breaks, with_methods, lookup, vars_after,
    bound_value, first_char_is_one_byte, service_for, NodeView, SegmentParseError, SegmentView, ServiceCollection,
};
use crate::http::request::Method;
use crate::text::{lemma_first_index_from, lemma_first_index_is, lemma_first_index_none};

verus! {

proof fn lemma_raw_segments_from(s: Seq<char>, from: int)
    requires
        0 <= from <= s.len(),
    ensures
        raw_segments_from(s, from).flatten() == s.subrange(from, s.len() as int),
        forall|k: int|
            0 <= k < raw_segments_from(s, from).len() ==> (#[trigger] raw_segments_from(s, from)[k]).len() > 0,
        forall|k: int|
            0 < k < raw_segments_from(s, from).len() ==> (#[trigger] raw_segments_from(s, from)[k])[0] == '/',
        raw_segments_from(s, from).len() > 0 ==> raw_segments_from(s, from)[0][0] == s[from],
        forall|k: int, j: int|
            0 <= k < raw_segments_from(s, from).len() && 1 <= j < raw_segments_from(s, from)[k].len()
                ==> #[trigger] raw_segments_from(s, from)[k][j] != '/',
    decreases s.len() - from,
{
    if from < s.len() {
        let k = raw_segment_end(s, from + 1);
        lemma_raw_segment_end(s, from + 1);
        lemma_raw_segments_from(s, k);
        let head = s.subrange(from, k);
        let rest = raw_segments_from(s, k);
        let all = raw_segments_from(s, from);
        assert(all == seq![head] + rest);
        assert(all.first() == head);
        assert(all.drop_first() =~= rest);
        assert(s.subrange(from, s.len() as int) =~= head + s.subrange(k, s.len() as int));
        assert forall|i: int| 0 < i < all.len() implies (#[trigger] all[i])[0] == '/' by {
            assert(all[i] == rest[i - 1]);
            if i == 1 {
                assert(rest[0][0] == s[k]);
            }
        }
        assert forall|i: int, j: int| 0 <= i < all.len() && 1 <= j < all[i].len() implies #[trigger] all[i][j] != '/' by {
            if i > 0 {
                assert(all[i] == rest[i - 1]);
            } else {
                assert(all[i][j] == s[from + j]);
            }
        }
        assert forall|i: int| 0 <= i < all.len() implies (#[trigger] all[i]).len() > 0 by {
            if i > 0 {
                assert(all[i] == rest[i - 1]);
            }
        }
    } else {
        assert(s.subrange(from, s.len() as int) =~= Seq::<char>::empty());
    }
}

/// Cutting a path into raw segments loses nothing and adds nothing: the
/// segments, put back together, are the path. No segment is empty, every
/// segment but the first starts with `/`, and no segment holds a `/` anywhere
/// else.
pub proof fn law_raw_segments_partition(s: Seq<char>)
    ensures
        raw_segments(s).flatten() == s,
        forall|k: int| 0 <= k < raw_segments(s).len() ==> (#[trigger] raw_segments(s)[k]).len() > 0,
        forall|k: int| 0 < k < raw_segments(s).len() ==> (#[trigger] raw_segments(s)[k])[0] == '/',
        forall|k: int, j: int|
            0 <= k < raw_segments(s).len() && 1 <= j < raw_segments(s)[k].len()
                ==> #[trigger] raw_segments(s)[k][j] != '/',
{
    lemma_raw_segments_from(s, 0);
    assert(s.subrange(0, s.len() as int) =~= s);
}

/// Text that starts with `/` and holds no `{` is a static segment, kept whole.
pub proof fn law_parse_static(s: Seq<char>)
    requires
        s.len() > 0,
        s[0] == '/',
        forall|k: int| 0 <= k < s.len() ==> s[k] != '{',
    ensures
        spec_parse_segment(s) == Ok::<SegmentView, SegmentParseError>(SegmentView::Static(s)),
{
    lemma_first_index_none(s, '{', 0);
}

/// Text that starts with `/` and first opens `{name}`, with `name` non-empty
/// and free of `}`, is the pattern `name`, whatever follows it.
pub proof fn law_parse_pattern(prefix: Seq<char>, name: Seq<char>, rest: Seq<char>)
    requires
        prefix.len() > 0,
        prefix[0] == '/',
        forall|k: int| 0 <= k < prefix.len() ==> prefix[k] != '{',
        name.len() > 0,
        forall|k: int| 0 <= k < name.len() ==> name[k] != '}',
    ensures
        spec_parse_segment(prefix + seq!['{'] + name + seq!['}'] + rest) == Ok::<SegmentView, SegmentParseError>(
            SegmentView::Pattern(name),
        ),
{
    let s = prefix + seq!['{'] + name + seq!['}'] + rest;
    let i = prefix.len() as int;
    let j = i + 1 + name.len();
    assert(s[i] == '{');
    assert forall|m: int| 0 <= m < i implies s[m] != '{' by {
        assert(s[m] == prefix[m]);
    }
    lemma_first_index_is(s, '{', 0, i);
    assert(s[j] == '}');
    assert forall|m: int| i + 1 <= m < j implies s[m] != '}' by {
        assert(s[m] == name[m - i - 1]);
    }
    lemma_first_index_is(s, '}', i + 1, j);
    assert(s.subrange(i + 1, j) =~= name);
}

/// Every parsed segment has the shape of its kind: a static one is its whole
/// text, starting with `/`; a pattern's name is not empty and holds no `}`.
pub proof fn law_parsed_segment_shape(s: Seq<char>)
    ensures
        spec_parse_segment(s) matches Ok(SegmentView::Static(t)) ==> t == s && t.len() > 0 && t[0] == '/',
        spec_parse_segment(s) matches Ok(SegmentView::Pattern(n)) ==> n.len() > 0 && forall|k: int|
            0 <= k < n.len() ==> n[k] != '}',
{
    lemma_first_index_from(s, '{', 0);
    if let Some(i) = crate::text::first_index_from(s, '{', 0) {
        lemma_first_index_from(s, '}', i + 1);
        if let Some(j) = crate::text::first_index_from(s, '}', i + 1) {
            let n = s.subrange(i + 1, j);
            assert forall|k: int| 0 <= k < n.len() implies #[trigger] n[k] != '}' by {
                assert(n[k] == s[i + 1 + k]);
            }
        }
    }
}

/// Walking down a tree along segments each of which failed to parse or carries
/// a text whose first character is one byte never slices a text badly.
proof fn lemma_walk_unbroken<S>(n: NodeView<S>, segs: Seq<Result<SegmentView, SegmentParseError>>)
    requires
        forall|k: int|
            0 <= k < segs.len() ==> (#[trigger] segs[k] matches Ok(seg) ==> first_char_is_one_byte(seg.text())),
    ensures
        !walk_breaks(n, segs),
    decreases segs.len(),
{
    if segs.len() > 0 {
        if let Ok(seg) = segs[0] {
            if let Some(k) = crate::http::path::leaf_for(n.leaves, seg, 0) {
                assert forall|m: int|
                    0 <= m < segs.drop_first().len() implies (#[trigger] segs.drop_first()[m] matches Ok(seg)
                    ==> first_char_is_one_byte(seg.text())) by {
                    assert(segs.drop_first()[m] == segs[m + 1]);
                }
                lemma_walk_unbroken(n.leaves[k], segs.drop_first());
            }
        }
    }
}

/// A path without `{` never makes a lookup slice a text badly, in any tree:
/// every segment that parses is static and starts with the one-byte `/`.
pub proof fn law_plain_paths_never_break<S>(root: NodeView<S>, path: Seq<char>)
    requires
        forall|k: int| 0 <= k < path.len() ==> path[k] != '{',
    ensures
        !lookup_breaks(root, parsed_path(path)),
{
    let raws = raw_segments(path);
    let segs = parsed_path(path);
    law_raw_segments_partition(path);
    assert forall|k: int| 0 <= k < segs.len() implies (#[trigger] segs[k] matches Ok(seg) ==> first_char_is_one_byte(seg.text())) by {
        let r = raws[k];
        assert(segs[k] == spec_parse_segment(r));
        law_parsed_segment_shape(r);
        lemma_raw_segments_chars(path, 0, k, |c: char| c != '{');
        if r.len() > 0 && r[0] == '/' {
            law_parse_static(r);
            assert(('/' as u32) < 0x80);
        }
    }
    lemma_walk_unbroken(root, segs);
}

/// A path of ASCII characters never makes a lookup slice a text badly, in any
/// tree: every segment that parses carries a text whose first character is a
/// single byte.
pub proof fn law_ascii_paths_never_break<S>(root: NodeView<S>, path: Seq<char>)
    requires
        forall|k: int| 0 <= k < path.len() ==> (path[k] as u32) < 0x80,
    ensures
        !lookup_breaks(root, parsed_path(path)),
{
    let raws = raw_segments(path);
    let segs = parsed_path(path);
    law_raw_segments_partition(path);
    assert forall|k: int| 0 <= k < segs.len() implies (#[trigger] segs[k] matches Ok(seg) ==> first_char_is_one_byte(seg.text())) by {
        let r = raws[k];
        assert(segs[k] == spec_parse_segment(r));
        law_parsed_segment_shape(r);
        lemma_raw_segments_chars(path, 0, k, |c: char| (c as u32) < 0x80);
        lemma_first_index_from(r, '{', 0);
        if let Some(i) = crate::text::first_index_from(r, '{', 0) {
            lemma_first_index_from(r, '}', i + 1);
            if let Some(j) = crate::text::first_index_from(r, '}', i + 1) {
                if j > i + 1 {
                    assert(r.subrange(i + 1, j)[0] == r[i + 1]);
                }
            }
        }
    }
    lemma_walk_unbroken(root, segs);
}

/// A raw segment of `s[from..]` holds only characters that `p` accepts, where
/// `s[from..]` does.
proof fn lemma_raw_segments_chars(s: Seq<char>, from: int, k: int, p: spec_fn(char) -> bool)
    requires
        0 <= from <= s.len(),
        0 <= k < raw_segments_from(s, from).len(),
        forall|m: int| from <= m < s.len() ==> p(#[trigger] s[m]),
    ensures
        forall|m: int| 0 <= m < raw_segments_from(s, from)[k].len() ==> p(#[trigger] raw_segments_from(s, from)[k][m]),
    decreases s.len() - from,
{
    let e = raw_segment_end(s, from + 1);
    lemma_raw_segment_end(s, from + 1);
    let all = raw_segments_from(s, from);
    assert(all == seq![s.subrange(from, e)] + raw_segments_from(s, e));
    if k == 0 {
        assert forall|m: int| 0 <= m < all[k].len() implies p(#[trigger] all[k][m]) by {
            assert(all[k][m] == s[from + m]);
        }
    } else {
        assert(all[k] == raw_segments_from(s, e)[k - 1]);
        lemma_raw_segments_chars(s, e, k - 1, p);
    }
}

/// Static children come before pattern children.
pub open spec fn statics_first<S>(leaves: Seq<NodeView<S>>) -> bool {
    forall|i: int, j: int|
        0 <= i < j < leaves.len() && (#[trigger] leaves[j]).segment.is_static()
            ==> (#[trigger] leaves[i]).segment.is_static()
}

/// No two children have the same segment.
pub open spec fn distinct_segments<S>(leaves: Seq<NodeView<S>>) -> bool {
    forall|i: int, j: int|
        0 <= i < j < leaves.len() ==> (#[trigger] leaves[i]).segment != (#[trigger] leaves[j]).segment
}

/// The shape every routing tree keeps: at every node, static children come
/// first and no two children share a segment.
pub open spec fn tree_wf<S>(n: NodeView<S>) -> bool
    decreases n,
{
    &&& statics_first(n.leaves)
    &&& distinct_segments(n.leaves)
    &&& forall|i: int| 0 <= i < n.leaves.len() ==> tree_wf(#[trigger] n.leaves[i])
}

/// A fresh node has the shape.
pub proof fn law_fresh_tree_wf<S>(seg: SegmentView)
    ensures
        tree_wf(fresh_node::<S>(seg)),
{
}

proof fn lemma_leaf_idx_or_add_wf<S>(n: NodeView<S>, seg: SegmentView)
    requires
        tree_wf(n),
    ensures
        tree_wf(leaf_idx_or_add(n, seg).0),
        0 <= leaf_idx_or_add(n, seg).1 < leaf_idx_or_add(n, seg).0.leaves.len(),
        leaf_idx_or_add(n, seg).0.segment == n.segment,
        leaf_idx_or_add(n, seg).0.methods == n.methods,
        leaf_idx_or_add(n, seg).0.leaves[leaf_idx_or_add(n, seg).1].segment == seg,
{
    lemma_find_leaf(n.leaves, seg, 0);
    let n1 = leaf_idx_or_add(n, seg).0;
    if find_leaf(n.leaves, seg, 0) is None {
        let f = fresh_node::<S>(seg);
        assert(tree_wf(f));
        if seg.is_static() {
            assert(n1.leaves == seq![f] + n.leaves);
            assert forall|i: int, j: int|
                0 <= i < j < n1.leaves.len() && (#[trigger] n1.leaves[j]).segment.is_static()
                implies (#[trigger] n1.leaves[i]).segment.is_static() by {
                if i > 0 {
                    assert(n1.leaves[i] == n.leaves[i - 1]);
                    assert(n1.leaves[j] == n.leaves[j - 1]);
                }
            }
            assert forall|i: int, j: int| 0 <= i < j < n1.leaves.len() implies (#[trigger] n1.leaves[i]).segment
                != (#[trigger] n1.leaves[j]).segment by {
                assert(n1.leaves[j] == n.leaves[j - 1]);
                if i > 0 {
                    assert(n1.leaves[i] == n.leaves[i - 1]);
                }
            }
            assert forall|i: int| 0 <= i < n1.leaves.len() implies tree_wf(#[trigger] n1.leaves[i]) by {
                if i > 0 {
                    assert(n1.leaves[i] == n.leaves[i - 1]);
                }
            }
        } else {
            assert(n1.leaves == n.leaves.push(f));
            assert forall|i: int, j: int|
                0 <= i < j < n1.leaves.len() && (#[trigger] n1.leaves[j]).segment.is_static()
                implies (#[trigger] n1.leaves[i]).segment.is_static() by {
                assert(n1.leaves[i] == n.leaves[i]);
                assert(n1.leaves[j] == n.leaves[j]);
            }
            assert forall|i: int, j: int| 0 <= i < j < n1.leaves.len() implies (#[trigger] n1.leaves[i]).segment
                != (#[trigger] n1.leaves[j]).segment by {
                assert(n1.leaves[i] == n.leaves[i]);
                if j < n.leaves.len() {
                    assert(n1.leaves[j] == n.leaves[j]);
                }
            }
            assert forall|i: int| 0 <= i < n1.leaves.len() implies tree_wf(#[trigger] n1.leaves[i]) by {
                if i < n.leaves.len() {
                    assert(n1.leaves[i] == n.leaves[i]);
                }
            }
        }
    }
}

/// Registering keeps a subtree's own segment.
pub proof fn lemma_add_keeps_segment<S>(
    n: NodeView<S>,
    segs: Seq<Result<SegmentView, SegmentParseError>>,
    services: ServiceCollection<S>,
)
    ensures
        add_at(n, segs, services).0.segment == n.segment,
    decreases segs.len(),
{
    if segs.len() > 0 {
        if let Ok(seg) = segs[0] {
            if n.segment != seg {
                let (n1, idx) = leaf_idx_or_add(n, seg);
                lemma_add_keeps_segment(n1.leaves[idx], segs.drop_first(), services);
            }
        }
    }
}

/// Registering a route keeps the shape of the tree: static children stay in
/// front of pattern children, and no two children of a node share a segment.
pub proof fn law_add_keeps_wf<S>(
    n: NodeView<S>,
    segs: Seq<Result<SegmentView, SegmentParseError>>,
    services: ServiceCollection<S>,
)
    requires
        tree_wf(n),
    ensures
        tree_wf(add_at(n, segs, services).0),
    decreases segs.len(),
{
    if segs.len() > 0 {
        if let Ok(seg) = segs[0] {
            if n.segment != seg {
                let (n1, idx) = leaf_idx_or_add(n, seg);
                lemma_leaf_idx_or_add_wf(n, seg);
                let child = add_at(n1.leaves[idx], segs.drop_first(), services).0;
                law_add_keeps_wf(n1.leaves[idx], segs.drop_first(), services);
                lemma_add_keeps_segment(n1.leaves[idx], segs.drop_first(), services);
                let leaves = n1.leaves.update(idx, child);
                let r = add_at(n, segs, services).0;
                assert(r.leaves == leaves);
                assert forall|i: int, j: int|
                    0 <= i < j < leaves.len() && (#[trigger] leaves[j]).segment.is_static()
                    implies (#[trigger] leaves[i]).segment.is_static() by {
                    assert(leaves[i].segment == n1.leaves[i].segment);
                    assert(leaves[j].segment == n1.leaves[j].segment);
                    assert(n1.leaves[j].segment.is_static());
                }
                assert forall|i: int, j: int| 0 <= i < j < leaves.len() implies (#[trigger] leaves[i]).segment
                    != (#[trigger] leaves[j]).segment by {
                    assert(leaves[i].segment == n1.leaves[i].segment);
                    assert(leaves[j].segment == n1.leaves[j].segment);
                }
                assert forall|i: int| 0 <= i < leaves.len() implies tree_wf(#[trigger] leaves[i]) by {
                    if i != idx {
                        assert(leaves[i] == n1.leaves[i]);
                    }
                }
            }
        }
    }
    if segs.len() == 0 || (segs[0] is Ok && n.segment == segs[0]->Ok_0) {
        assert(add_at(n, segs, services).0.leaves == n.leaves);
    }
}

/// In a well-shaped node, an incoming static segment that equals a child's
/// enters that child, even where pattern children stand beside it.
pub proof fn law_static_child_preferred<S>(leaves: Seq<NodeView<S>>, seg: SegmentView)
    requires
        statics_first(leaves),
        seg.is_static(),
        find_leaf(leaves, seg, 0) is Some,
    ensures
        leaf_for(leaves, seg, 0) == find_leaf(leaves, seg, 0),
{
    lemma_find_leaf(leaves, seg, 0);
    lemma_leaf_for(leaves, seg, 0);
    let k = find_leaf(leaves, seg, 0)->Some_0;
    match leaf_for(leaves, seg, 0) {
        Some(m) => {
            if m < k {
                if leaves[m].segment.is_static() {
                    assert(leaves[m].segment == seg);
                } else {
                    assert(leaves[k].segment.is_static());
                }
            }
        },
        None => {
            assert(leaves[k].segment == seg);
        },
    }
}

/// Segments that all parsed.
pub open spec fn oks(segs: Seq<SegmentView>) -> Seq<Result<SegmentView, SegmentParseError>> {
    segs.map_values(|x: SegmentView| Ok::<SegmentView, SegmentParseError>(x))
}

/// The chain of nodes that registering `route` adds below a childless node:
/// one node per segment, the last holding `services`.
pub open spec fn chain<S>(route: Seq<SegmentView>, services: ServiceCollection<S>) -> NodeView<S>
    decreases route.len(),
{
    if route.len() <= 1 {
        with_methods(fresh_node(route[0]), services)
    } else {
        NodeView {
            segment: route[0],
            leaves: seq![chain(route.drop_first(), services)],
            methods: ServiceCollection { get: None, post: None },
        }
    }
}

/// No segment of `route` equals the one before it.
pub open spec fn no_repeats(route: Seq<SegmentView>) -> bool {
    forall|k: int| 0 < k < route.len() ==> #[trigger] route[k] != route[k - 1]
}

/// A concrete request path matches a route where it has as many segments,
/// all static, each equal to the route's where that one is static.
pub open spec fn matches_route(route: Seq<SegmentView>, request: Seq<SegmentView>) -> bool {
    &&& route.len() == request.len()
    &&& forall|k: int| 0 <= k < request.len() ==> (#[trigger] request[k]).is_static()
    &&& forall|k: int| 0 <= k < route.len() && (#[trigger] route[k]).is_static() ==> request[k] == route[k]
}

/// The variables a route's patterns bind to a request's segments, added to `vars`
/// in order (a later pattern of the same name wins).
pub open spec fn bound_vars(
    route: Seq<SegmentView>,
    request: Seq<SegmentView>,
    vars: Map<Seq<char>, Seq<char>>,
) -> Map<Seq<char>, Seq<char>>
    decreases route.len(),
{
    if route.len() == 0 || request.len() == 0 {
        vars
    } else {
        let vars1 = match route[0] {
            SegmentView::Pattern(name) => vars.insert(name, bound_value(request[0])),
            SegmentView::Static(_) => vars,
        };
        bound_vars(route.drop_first(), request.drop_first(), vars1)
    }
}

proof fn lemma_oks_drop_first(segs: Seq<SegmentView>)
    requires
        segs.len() > 0,
    ensures
        oks(segs).len() == segs.len(),
        oks(segs)[0] == Ok::<SegmentView, SegmentParseError>(segs[0]),
        oks(segs).drop_first() == oks(segs.drop_first()),
{
    assert(oks(segs).drop_first() =~= oks(segs.drop_first()));
}

/// Registering a route below a childless node whose segment is not the route's
/// first adds the chain of the route.
proof fn lemma_add_below_childless<S>(n: NodeView<S>, route: Seq<SegmentView>, services: ServiceCollection<S>)
    requires
        n.leaves.len() == 0,
        route.len() > 0,
        n.segment != route[0],
        no_repeats(route),
    ensures
        add_at(n, oks(route), services) == (
            NodeView { segment: n.segment, leaves: seq![chain(route, services)], methods: n.methods },
            Ok::<(), SegmentParseError>(()),
        ),
    decreases route.len(),
{
    lemma_oks_drop_first(route);
    let seg = route[0];
    let f = fresh_node::<S>(seg);
    assert(find_leaf(n.leaves, seg, 0) is None);
    let (n1, idx) = leaf_idx_or_add(n, seg);
    if seg.is_static() {
        assert(n1.leaves =~= seq![f]);
    } else {
        assert(n1.leaves =~= seq![f]);
    }
    assert(idx == 0);
    let rest = route.drop_first();
    if rest.len() == 0 {
        assert(oks(rest).len() == 0);
        assert(add_at(f, oks(rest), services).0 == with_methods(f, services));
        assert(chain(route, services) == with_methods(f, services));
    } else {
        assert(rest[0] == route[1]);
        lemma_add_below_childless(f, rest, services);
    }
    assert(n1.leaves.update(0, chain(route, services)) =~= seq![chain(route, services)]);
}

/// Walking a chain along a request that matches its route reaches the chain's
/// end, binding the route's patterns.
proof fn lemma_walk_chain<S>(
    top: SegmentView,
    methods: ServiceCollection<S>,
    route: Seq<SegmentView>,
    request: Seq<SegmentView>,
    services: ServiceCollection<S>,
    vars: Map<Seq<char>, Seq<char>>,
)
    requires
        route.len() > 0,
        matches_route(route, request),
    ensures
        walk(NodeView { segment: top, leaves: seq![chain(route, services)], methods: methods }, oks(request), vars)
            == Some(Ok::<(NodeView<S>, Map<Seq<char>, Seq<char>>), SegmentParseError>((
                with_methods(fresh_node(route.last()), services),
                bound_vars(route, request, vars),
            ))),
    decreases route.len(),
{
    lemma_oks_drop_first(request);
    let n = NodeView { segment: top, leaves: seq![chain(route, services)], methods: methods };
    let c = chain(route, services);
    assert(c.segment == route[0]);
    assert(leaf_for(n.leaves, request[0], 0) == Some(0int));
    let vars1 = vars_after(c, request[0], vars);
    assert(vars1 == match route[0] {
        SegmentView::Pattern(name) => vars.insert(name, bound_value(request[0])),
        SegmentView::Static(_) => vars,
    });
    let rest = route.drop_first();
    let rq = request.drop_first();
    assert(walk(n, oks(request), vars) == walk(c, oks(rq), vars1));
    assert(bound_vars(route, request, vars) == bound_vars(rest, rq, vars1));
    if rest.len() == 0 {
        assert(oks(rq).len() == 0);
        assert(c == with_methods(fresh_node::<S>(route[0]), services));
        assert(bound_vars(rest, rq, vars1) == vars1);
        assert(route.last() == route[0]);
    } else {
        assert(matches_route(rest, rq)) by {
            assert forall|k: int| 0 <= k < rq.len() implies (#[trigger] rq[k]).is_static() by {
                assert(rq[k] == request[k + 1]);
            }
            assert forall|k: int| 0 <= k < rest.len() && (#[trigger] rest[k]).is_static() implies rq[k] == rest[k] by {
                assert(rest[k] == route[k + 1]);
                assert(rq[k] == request[k + 1]);
            }
        }
        assert(c == NodeView { segment: route[0], leaves: seq![chain(rest, services)], methods: ServiceCollection::<S> { get: None, post: None } });
        lemma_walk_chain(route[0], ServiceCollection::<S> { get: None, post: None }, rest, rq, services, vars1);
        assert(rest.last() == route.last());
    }
}

/// What a router is for: on a fresh tree, registering a route and then looking
/// up a request path that matches it finds the node that holds the route's
/// services, with the route's pattern names bound to the request's segments
/// (each without its leading `/`).
///
/// The route must not repeat a segment right after itself, nor start with the
/// root's `/`; the request must not start with `/` alone either (such paths
/// stop at an earlier node).
pub proof fn law_route_then_lookup<S>(
    route: Seq<SegmentView>,
    request: Seq<SegmentView>,
    services: ServiceCollection<S>,
)
    requires
        route.len() > 0,
        no_repeats(route),
        route[0] != SegmentView::Static("/"@),
        request[0] != SegmentView::Static("/"@),
        matches_route(route, request),
    ensures
        add_at(fresh_node::<S>(SegmentView::Static("/"@)), oks(route), services).1 is Ok,
        lookup(add_at(fresh_node::<S>(SegmentView::Static("/"@)), oks(route), services).0, oks(request))
            == Some(Ok::<(NodeView<S>, Map<Seq<char>, Seq<char>>), SegmentParseError>((
                with_methods(fresh_node(route.last()), services),
                bound_vars(route, request, Map::empty()),
            ))),
{
    let root = fresh_node::<S>(SegmentView::Static("/"@));
    lemma_add_below_childless(root, route, services);
    lemma_oks_drop_first(request);
    lemma_walk_chain(root.segment, root.methods, route, request, services, Map::empty());
}

/// Every segment is static.
pub open spec fn all_static(route: Seq<SegmentView>) -> bool {
    forall|k: int| 0 <= k < route.len() ==> (#[trigger] route[k]).is_static()
}

/// In children with distinct segments, the child with segment `seg` is the one found.
proof fn lemma_find_unique<S>(leaves: Seq<NodeView<S>>, seg: SegmentView, idx: int)
    requires
        distinct_segments(leaves),
        0 <= idx < leaves.len(),
        leaves[idx].segment == seg,
    ensures
        find_leaf(leaves, seg, 0) == Some(idx),
{
    lemma_find_leaf(leaves, seg, 0);
    if let Some(k) = find_leaf(leaves, seg, 0) {
        if k < idx {
            assert(leaves[k].segment != leaves[idx].segment);
        }
    }
}

/// Registering an all-static route below a well-shaped node and walking the
/// same segments from it reaches the node that holds the services.
proof fn lemma_static_add_then_walk<S>(
    n: NodeView<S>,
    route: Seq<SegmentView>,
    services: ServiceCollection<S>,
    vars: Map<Seq<char>, Seq<char>>,
)
    requires
        tree_wf(n),
        route.len() > 0,
        all_static(route),
        no_repeats(route),
        n.segment != route[0],
    ensures
        add_at(n, oks(route), services).1 is Ok,
        walk(add_at(n, oks(route), services).0, oks(route), vars) matches Some(Ok((m, v)))
            && m.methods == services && v == vars,
    decreases route.len(),
{
    lemma_oks_drop_first(route);
    let seg = route[0];
    assert(seg.is_static());
    let (n1, idx) = leaf_idx_or_add(n, seg);
    lemma_leaf_idx_or_add_wf(n, seg);
    let child = n1.leaves[idx];
    assert(tree_wf(child));
    let rest = route.drop_first();
    let (child2, r) = add_at(child, oks(rest), services);
    assert(add_at(n, oks(route), services) == (
        NodeView { segment: n1.segment, leaves: n1.leaves.update(idx, child2), methods: n1.methods },
        r,
    ));
    let n2 = add_at(n, oks(route), services).0;
    law_add_keeps_wf(n, oks(route), services);
    lemma_add_keeps_segment(child, oks(rest), services);
    assert(n2.leaves[idx] == child2);
    lemma_find_unique(n2.leaves, seg, idx);
    law_static_child_preferred(n2.leaves, seg);
    assert(vars_after(child2, seg, vars) == vars);
    assert(walk(n2, oks(route), vars) == walk(child2, oks(rest), vars));
    if rest.len() == 0 {
        assert(oks(rest).len() == 0);
    } else {
        assert(rest[0] == route[1]);
        assert(all_static(rest)) by {
            assert forall|k: int| 0 <= k < rest.len() implies (#[trigger] rest[k]).is_static() by {
                assert(rest[k] == route[k + 1]);
            }
        }
        assert(no_repeats(rest)) by {
            assert forall|k: int| 0 < k < rest.len() implies #[trigger] rest[k] != rest[k - 1] by {
                assert(rest[k] == route[k + 1]);
                assert(rest[k - 1] == route[k]);
            }
        }
        lemma_static_add_then_walk(child, rest, services, vars);
    }
}

/// What a router is for, in any well-shaped tree: after registering services
/// under an all-static route (no segment repeating the one before it), looking
/// that route up finds a node that holds those services, and binds nothing.
pub proof fn law_static_route_found<S>(t: NodeView<S>, route: Seq<SegmentView>, services: ServiceCollection<S>)
    requires
        tree_wf(t),
        route.len() > 0,
        all_static(route),
        no_repeats(route),
    ensures
        add_at(t, oks(route), services).1 is Ok,
        lookup(add_at(t, oks(route), services).0, oks(route)) matches Some(Ok((n, vars)))
            && n.methods == services && vars == Map::<Seq<char>, Seq<char>>::empty(),
{
    lemma_oks_drop_first(route);
    if t.segment == route[0] {
        lemma_add_keeps_segment(t, oks(route), services);
    } else {
        lemma_add_keeps_segment(t, oks(route), services);
        lemma_static_add_then_walk(t, route, services, Map::empty());
    }
}

/// The text of a segment: a static segment's own text, `/{name}` for a pattern.
pub open spec fn segment_text(seg: SegmentView) -> Seq<char> {
    match seg {
        SegmentView::Static(t) => t,
        SegmentView::Pattern(x) => seq!['/', '{'] + x + seq!['}'],
    }
}

/// The text of a path made of `route`'s segments.
pub open spec fn path_text(route: Seq<SegmentView>) -> Seq<char>
    decreases route.len(),
{
    if route.len() == 0 {
        Seq::empty()
    } else {
        segment_text(route[0]) + path_text(route.drop_first())
    }
}

/// A segment written plainly: `/a` with `a` non-empty and free of `/` and
/// `{`, or `/{x}` with `x` non-empty and free of `/`, `{` and `}`.
pub open spec fn well_written(seg: SegmentView) -> bool {
    match seg {
        SegmentView::Static(t) => t.len() >= 2 && t[0] == '/' && forall|j: int|
            1 <= j < t.len() ==> t[j] != '/' && t[j] != '{',
        SegmentView::Pattern(x) => x.len() > 0 && forall|j: int|
            0 <= j < x.len() ==> x[j] != '/' && x[j] != '{' && x[j] != '}',
    }
}

pub open spec fn all_well_written(route: Seq<SegmentView>) -> bool {
    forall|k: int| 0 <= k < route.len() ==> well_written(#[trigger] route[k])
}

proof fn lemma_segment_text_shape(seg: SegmentView)
    requires
        well_written(seg),
    ensures
        segment_text(seg).len() >= 2,
        segment_text(seg)[0] == '/',
        forall|j: int| 1 <= j < segment_text(seg).len() ==> #[trigger] segment_text(seg)[j] != '/',
        seg.is_static() ==> forall|j: int| 0 <= j < segment_text(seg).len() ==> #[trigger] segment_text(seg)[j] != '{',
{
    if let SegmentView::Pattern(x) = seg {
        let t = segment_text(seg);
        assert forall|j: int| 1 <= j < t.len() implies #[trigger] t[j] != '/' by {
            if 2 <= j < 2 + x.len() {
                assert(t[j] == x[j - 2]);
            }
        }
    }
}

proof fn lemma_raw_segments_of_text(s: Seq<char>, from: int, route: Seq<SegmentView>)
    requires
        0 <= from <= s.len(),
        s.subrange(from, s.len() as int) == path_text(route),
        all_well_written(route),
    ensures
        raw_segments_from(s, from) == route.map_values(|x: SegmentView| segment_text(x)),
    decreases route.len(),
{
    let t = s.subrange(from, s.len() as int);
    assert(t.len() == s.len() - from);
    if route.len() == 0 {
        assert(route.map_values(|x: SegmentView| segment_text(x)) =~= Seq::<Seq<char>>::empty());
    } else {
        let rest = route.drop_first();
        let t0 = segment_text(route[0]);
        let tr = path_text(rest);
        lemma_segment_text_shape(route[0]);
        assert(t == t0 + tr);
        let e = from + t0.len();
        assert forall|m: int| from + 1 <= m < e implies s[m] != '/' by {
            assert(s[m] == t[m - from]);
            assert(t[m - from] == t0[m - from]);
        }
        assert(all_well_written(rest)) by {
            assert forall|k: int| 0 <= k < rest.len() implies well_written(#[trigger] rest[k]) by {
                assert(rest[k] == route[k + 1]);
            }
        }
        if rest.len() > 0 {
            lemma_segment_text_shape(rest[0]);
            assert(tr == segment_text(rest[0]) + path_text(rest.drop_first()));
            assert(s[e] == t[t0.len() as int]);
            assert(t[t0.len() as int] == tr[0]);
            lemma_first_index_is(s, '/', from + 1, e);
        } else {
            assert(tr.len() == 0);
            lemma_first_index_none(s, '/', from + 1);
        }
        assert(raw_segment_end(s, from + 1) == e);
        assert forall|i: int| 0 <= i < t0.len() implies #[trigger] s.subrange(from, e)[i] == t0[i] by {
            assert(s[from + i] == t[i]);
        }
        assert(s.subrange(from, e) =~= t0);
        assert forall|i: int| 0 <= i < tr.len() implies #[trigger] s.subrange(e, s.len() as int)[i] == tr[i] by {
            assert(s[e + i] == t[t0.len() + i]);
        }
        assert(s.subrange(e, s.len() as int) =~= tr);
        lemma_raw_segments_of_text(s, e, rest);
        assert(raw_segments_from(s, from) == seq![t0] + raw_segments_from(s, e));
        assert(route.map_values(|x: SegmentView| segment_text(x)) =~= seq![t0] + rest.map_values(
            |x: SegmentView| segment_text(x),
        ));
    }
}

/// A path written from plain segments parses back into exactly those segments.
pub proof fn law_parsed_path_text(route: Seq<SegmentView>)
    requires
        all_well_written(route),
    ensures
        parsed_path(path_text(route)) == oks(route),
{
    let s = path_text(route);
    assert(s.subrange(0, s.len() as int) =~= s);
    lemma_raw_segments_of_text(s, 0, route);
    let raws = raw_segments(s);
    assert forall|k: int| 0 <= k < route.len() implies #[trigger] parsed_path(s)[k] == oks(route)[k] by {
        let seg = route[k];
        assert(well_written(seg));
        assert(raws[k] == segment_text(seg));
        match seg {
            SegmentView::Static(t) => {
                law_parse_static(t);
            },
            SegmentView::Pattern(x) => {
                law_parse_pattern(seq!['/'], x, Seq::empty());
                assert(seq!['/'] + seq!['{'] + x + seq!['}'] + Seq::<char>::empty() =~= segment_text(seg));
            },
        }
    }
    assert(parsed_path(s) =~= oks(route));
}

/// A path written from plain static segments holds no `{`.
pub proof fn lemma_static_text_plain(route: Seq<SegmentView>)
    requires
        all_well_written(route),
        all_static(route),
    ensures
        forall|k: int| 0 <= k < path_text(route).len() ==> #[trigger] path_text(route)[k] != '{',
    decreases route.len(),
{
    if route.len() > 0 {
        let rest = route.drop_first();
        assert(all_well_written(rest)) by {
            assert forall|k: int| 0 <= k < rest.len() implies well_written(#[trigger] rest[k]) by {
                assert(rest[k] == route[k + 1]);
            }
        }
        assert(all_static(rest)) by {
            assert forall|k: int| 0 <= k < rest.len() implies (#[trigger] rest[k]).is_static() by {
                assert(rest[k] == route[k + 1]);
            }
        }
        lemma_static_text_plain(rest);
        assert(route[0].is_static());
        lemma_segment_text_shape(route[0]);
        let t0 = segment_text(route[0]);
        let p = path_text(route);
        assert(p == t0 + path_text(rest));
        assert forall|k: int| 0 <= k < p.len() implies #[trigger] p[k] != '{' by {
            if k >= t0.len() {
                assert(p[k] == path_text(rest)[k - t0.len()]);
            }
        }
    }
}

/// Which child an incoming segment enters depends only on the children's segments.
proof fn lemma_leaf_for_by_segments<S>(l1: Seq<NodeView<S>>, l2: Seq<NodeView<S>>, seg: SegmentView, from: int)
    requires
        0 <= from,
        l1.len() == l2.len(),
        forall|i: int| 0 <= i < l1.len() ==> (#[trigger] l1[i]).segment == l2[i].segment,
    ensures
        leaf_for(l1, seg, from) == leaf_for(l2, seg, from),
    decreases l1.len() - from,
{
    if from < l1.len() {
        assert(l1[from].segment == l2[from].segment);
        lemma_leaf_for_by_segments(l1, l2, seg, from + 1);
    }
}

/// A static child put in front that the incoming segment does not equal shifts
/// the child it enters by one.
proof fn lemma_leaf_for_behind<S>(x: NodeView<S>, l: Seq<NodeView<S>>, seg: SegmentView, from: int)
    requires
        0 <= from,
    ensures
        leaf_for(seq![x] + l, seg, from + 1) == match leaf_for(l, seg, from) {
            Some(k) => Some(k + 1),
            None => None::<int>,
        },
    decreases l.len() - from,
{
    let l1 = seq![x] + l;
    if from < l.len() {
        assert(l1[from + 1] == l[from]);
        lemma_leaf_for_behind(x, l, seg, from + 1);
    }
}

/// Where a request goes on below `n` past a route's path, so that
/// registering the route leaves the request's walk alone: the request goes on,
/// and either the route ends here, or its next segment is static and not
/// `n`'s own and the request's next segment differs from it, or they agree,
/// `n` already has that child, and the same holds further down.
pub open spec fn parts_at_static<S>(
    n: NodeView<S>,
    segs: Seq<Result<SegmentView, SegmentParseError>>,
    request: Seq<Result<SegmentView, SegmentParseError>>,
) -> bool
    decreases segs.len(),
{
    request.len() > 0 && (segs.len() == 0 || match segs[0] {
        Ok(s) => s.is_static() && s != n.segment && match request[0] {
            Ok(q) => s != q || match find_leaf(n.leaves, s, 0) {
                Some(k) => parts_at_static(n.leaves[k], segs.drop_first(), request.drop_first()),
                None => false,
            },
            Err(e) => false,
        },
        Err(e) => false,
    })
}

proof fn lemma_walk_kept<S>(
    n: NodeView<S>,
    segs: Seq<Result<SegmentView, SegmentParseError>>,
    services: ServiceCollection<S>,
    request: Seq<Result<SegmentView, SegmentParseError>>,
    vars: Map<Seq<char>, Seq<char>>,
)
    requires
        tree_wf(n),
        parts_at_static(n, segs, request),
    ensures
        walk(add_at(n, segs, services).0, request, vars) == walk(n, request, vars),
        walk_breaks(add_at(n, segs, services).0, request) == walk_breaks(n, request),
    decreases segs.len(),
{
    if segs.len() == 0 {
        assert(add_at(n, segs, services).0.leaves == n.leaves);
        return;
    }
    let s = segs[0]->Ok_0;
    let q = request[0]->Ok_0;
    let t2 = add_at(n, segs, services).0;
    let (n1, idx) = leaf_idx_or_add(n, s);
    let child = add_at(n1.leaves[idx], segs.drop_first(), services).0;
    lemma_add_keeps_segment(n1.leaves[idx], segs.drop_first(), services);
    assert(t2.leaves == n1.leaves.update(idx, child));
    lemma_find_leaf(n.leaves, s, 0);
    match find_leaf(n.leaves, s, 0) {
        Some(k) => {
            assert(idx == k);
            assert forall|i: int| 0 <= i < t2.leaves.len() implies (#[trigger] t2.leaves[i]).segment
                == n.leaves[i].segment by {
                if i != k {
                    assert(t2.leaves[i] == n.leaves[i]);
                }
            }
            lemma_leaf_for_by_segments(t2.leaves, n.leaves, q, 0);
            lemma_leaf_for(n.leaves, q, 0);
            if s == q {
                law_static_child_preferred(n.leaves, q);
                assert(leaf_for(n.leaves, q, 0) == Some(k));
                assert(tree_wf(n.leaves[k]));
                assert(vars_after(child, q, vars) == vars_after(n.leaves[k], q, vars));
                lemma_walk_kept(n.leaves[k], segs.drop_first(), services, request.drop_first(), vars_after(n.leaves[k], q, vars));
            } else if let Some(m) = leaf_for(n.leaves, q, 0) {
                assert(m != k);
                assert(t2.leaves[m] == n.leaves[m]);
            }
        },
        None => {
            assert(idx == 0);
            let f = fresh_node::<S>(s);
            assert(n1.leaves == seq![f] + n.leaves);
            let l1 = seq![child] + n.leaves;
            assert(t2.leaves =~= l1);
            assert(l1[0].segment == s);
            lemma_leaf_for_behind(child, n.leaves, q, 0);
            assert(leaf_for(l1, q, 0) == leaf_for(l1, q, 1));
            if let Some(m) = leaf_for(n.leaves, q, 0) {
                lemma_leaf_for(n.leaves, q, 0);
                assert(l1[m + 1] == n.leaves[m]);
            }
        },
    }
}

/// Routes live beside each other: in a well-shaped tree, registering a route
/// leaves in place the lookup of every request that goes on past the route's
/// path (after a common part that the tree already holds, the route ends, or
/// its next segment is static and differs from the request's). The tree
/// answers such a path as it did before, and slices a text badly exactly when
/// it did before.
pub proof fn law_other_route_kept<S>(
    t: NodeView<S>,
    segs: Seq<Result<SegmentView, SegmentParseError>>,
    services: ServiceCollection<S>,
    request: Seq<Result<SegmentView, SegmentParseError>>,
)
    requires
        tree_wf(t),
        parts_at_static(t, segs, request),
        request[0] matches Ok(q) && q != t.segment,
    ensures
        lookup(add_at(t, segs, services).0, request) == lookup(t, request),
        lookup_breaks(add_at(t, segs, services).0, request) == lookup_breaks(t, request),
{
    lemma_add_keeps_segment(t, segs, services);
    lemma_walk_kept(t, segs, services, request, Map::empty());
}

/// `other` follows `route` for its first `j` segments, where `request` goes
/// on past it: `other` ends there, or its segment there differs from the
/// request's.
pub open spec fn parts_at(route: Seq<SegmentView>, other: Seq<SegmentView>, request: Seq<SegmentView>, j: int) -> bool {
    &&& 0 <= j <= other.len()
    &&& j < request.len()
    &&& (j == other.len() || other[j] != request[j])
    &&& forall|i: int| 0 <= i < j ==> #[trigger] other[i] == route[i]
}

/// `other` follows `route` for a while, and then `request` goes on past it.
pub open spec fn parts_after_common(route: Seq<SegmentView>, other: Seq<SegmentView>, request: Seq<SegmentView>) -> bool {
    exists|j: int| parts_at(route, other, request, j)
}

proof fn lemma_parts_below_chain<S>(
    n: NodeView<S>,
    route: Seq<SegmentView>,
    services: ServiceCollection<S>,
    other: Seq<SegmentView>,
    request: Seq<SegmentView>,
    j: int,
)
    requires
        route.len() > 0,
        n.leaves == seq![chain(route, services)],
        other.len() > 0 ==> other[0] != n.segment,
        all_static(other),
        no_repeats(other),
        0 <= j <= other.len(),
        j < request.len(),
        j < route.len(),
        j == other.len() || other[j] != request[j],
        forall|i: int| 0 <= i < j ==> #[trigger] other[i] == route[i] && request[i] == other[i],
    ensures
        parts_at_static(n, oks(other), oks(request)),
    decreases j,
{
    lemma_oks_drop_first(request);
    if other.len() > 0 {
        lemma_oks_drop_first(other);
        assert(other[0].is_static());
        if j > 0 {
            assert(other[0] == route[0] && request[0] == other[0]);
            let c = chain(route, services);
            assert(c.segment == route[0]);
            assert(find_leaf(n.leaves, other[0], 0) == Some(0int));
            let r2 = route.drop_first();
            assert(route.len() > 1);
            assert(c.leaves == seq![chain(r2, services)]);
            let o2 = other.drop_first();
            let q2 = request.drop_first();
            if o2.len() > 0 {
                assert(o2[0] == other[1]);
                assert(other[1] != other[0]);
            }
            assert(all_static(o2)) by {
                assert forall|k: int| 0 <= k < o2.len() implies (#[trigger] o2[k]).is_static() by {
                    assert(o2[k] == other[k + 1]);
                }
            }
            assert(no_repeats(o2)) by {
                assert forall|k: int| 0 < k < o2.len() implies #[trigger] o2[k] != o2[k - 1] by {
                    assert(o2[k] == other[k + 1]);
                    assert(o2[k - 1] == other[k]);
                }
            }
            assert forall|i: int| 0 <= i < j - 1 implies #[trigger] o2[i] == r2[i] && q2[i] == o2[i] by {
                assert(other[i + 1] == route[i + 1] && request[i + 1] == other[i + 1]);
            }
            lemma_parts_below_chain(c, r2, services, o2, q2, j - 1);
        }
    }
}

/// On a fresh tree that holds `route`, a request matching it goes on past the
/// path of a static `other` that follows `route` for a while and then parts.
pub proof fn lemma_parts_after_route<S>(
    route: Seq<SegmentView>,
    services: ServiceCollection<S>,
    other: Seq<SegmentView>,
    request: Seq<SegmentView>,
)
    requires
        route.len() > 0,
        no_repeats(route),
        route[0] != SegmentView::Static("/"@),
        other.len() > 0,
        other[0] != SegmentView::Static("/"@),
        all_static(other),
        no_repeats(other),
        matches_route(route, request),
        parts_after_common(route, other, request),
    ensures
        parts_at_static(add_at(fresh_node::<S>(SegmentView::Static("/"@)), oks(route), services).0, oks(other), oks(request)),
{
    let root = fresh_node::<S>(SegmentView::Static("/"@));
    lemma_add_below_childless(root, route, services);
    let j = choose|j: int| parts_at(route, other, request, j);
    assert forall|i: int| 0 <= i < j implies #[trigger] other[i] == route[i] && request[i] == other[i] by {
        assert(other[i] == route[i]);
        assert(other[i].is_static());
    }
    let t1 = add_at(root, oks(route), services).0;
    lemma_parts_below_chain(t1, route, services, other, request, j);
}

/// A collection answers GET with its GET handler and POST with its POST
/// handler, and every other method with none.
pub proof fn law_service_for_method<S>(c: ServiceCollection<S>, m: Method)
    ensures
        m == Method::Get ==> service_for(c, m) == c.get,
        m == Method::Post ==> service_for(c, m) == c.post,
        m != Method::Get && m != Method::Post ==> service_for(c, m) == None::<S>,
{
}

/// Entering a pattern child binds the pattern's name to the incoming
/// segment's whole text after its first character (its leading `/`); entering
/// a static child binds nothing.
pub proof fn law_pattern_child_binds<S>(c: NodeView<S>, seg: SegmentView, vars: Map<Seq<char>, Seq<char>>)
    ensures
        c.segment matches SegmentView::Pattern(x) ==> vars_after(c, seg, vars) == vars.insert(
            x,
            seg.text().subrange(1, seg.text().len() as int),
        ),
        c.segment is Static ==> vars_after(c, seg, vars) == vars,
{
}

proof fn lemma_bound_vars_keeps(
    route: Seq<SegmentView>,
    request: Seq<SegmentView>,
    m: Map<Seq<char>, Seq<char>>,
    x: Seq<char>,
)
    requires
        forall|j: int| 0 <= j < route.len() ==> route[j] != SegmentView::Pattern(x),
    ensures
        bound_vars(route, request, m).dom().contains(x) == m.dom().contains(x),
        bound_vars(route, request, m)[x] == m[x],
    decreases route.len(),
{
    if route.len() > 0 && request.len() > 0 {
        let rest = route.drop_first();
        assert forall|j: int| 0 <= j < rest.len() implies rest[j] != SegmentView::Pattern(x) by {
            assert(rest[j] == route[j + 1]);
        }
        let m1 = match route[0] {
            SegmentView::Pattern(name) => m.insert(name, bound_value(request[0])),
            SegmentView::Static(_) => m,
        };
        lemma_bound_vars_keeps(rest, request.drop_first(), m1, x);
    }
}

/// A route's pattern `x` at position `k`, with no later pattern of the same
/// name, binds `x` to the request's segment there, without its first
/// character (its leading `/`).
pub proof fn law_bound_vars_at(
    route: Seq<SegmentView>,
    request: Seq<SegmentView>,
    m: Map<Seq<char>, Seq<char>>,
    k: int,
)
    requires
        0 <= k < route.len(),
        k < request.len(),
        route[k] is Pattern,
        forall|j: int| k < j < route.len() ==> #[trigger] route[j] != route[k],
    ensures
        bound_vars(route, request, m).dom().contains(route[k]->Pattern_0),
        bound_vars(route, request, m)[route[k]->Pattern_0] == request[k].text().subrange(
            1,
            request[k].text().len() as int,
        ),
    decreases k,
{
    let rest = route.drop_first();
    let m1 = match route[0] {
        SegmentView::Pattern(name) => m.insert(name, bound_value(request[0])),
        SegmentView::Static(_) => m,
    };
    if k == 0 {
        assert forall|j: int| 0 <= j < rest.len() implies rest[j] != SegmentView::Pattern(route[0]->Pattern_0) by {
            assert(rest[j] == route[j + 1]);
        }
        lemma_bound_vars_keeps(rest, request.drop_first(), m1, route[0]->Pattern_0);
    } else {
        assert(rest[k - 1] == route[k]);
        assert(request.drop_first()[k - 1] == request[k]);
        assert forall|j: int| k - 1 < j < rest.len() implies #[trigger] rest[j] != rest[k - 1] by {
            assert(rest[j] == route[j + 1]);
        }
        law_bound_vars_at(rest, request.drop_first(), m1, k - 1);
    }
}

} // verus!
