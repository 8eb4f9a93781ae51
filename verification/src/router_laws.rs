//! What holds of a router: routes registered under written paths are found
//! again by the requests that match them.

use vstd::prelude::*;

use crate::http::path::{
    add_at, fresh_node, lookup, lookup_breaks, parsed_path, with_methods, NodeView,
    SegmentParseError, SegmentView, ServiceCollection,
};
use crate::http::path_laws::{
    all_static, all_well_written, bound_vars, law_parsed_path_text, law_plain_paths_never_break,
    law_route_then_lookup, law_static_route_found, law_add_keeps_wf, law_fresh_tree_wf,
    law_other_route_kept, lemma_add_keeps_segment, law_bound_vars_at, lemma_static_text_plain, matches_route,
    no_repeats, lemma_parts_after_route, parts_after_common, path_text, tree_wf, well_written,
};
use crate::router::Router;

verus! {

/// What a router is for: a router fresh from `with_error_handler`, given
/// `services` under the path written from `route`, answers every request path
/// written from segments that match the route. It finds the node that holds
/// those services, and binds each pattern name of the route to the request's
/// segment in its place, without the leading `/`. Such a lookup never slices a
/// text badly.
///
/// The route must not repeat a segment right after itself.
pub proof fn law_fresh_router_finds_route<S>(
    router: Router<S>,
    route: Seq<SegmentView>,
    request: Seq<SegmentView>,
    services: ServiceCollection<S>,
)
    requires
        router.routes() == fresh_node::<S>(SegmentView::Static("/"@)),
        route.len() > 0,
        no_repeats(route),
        all_well_written(route),
        all_well_written(request),
        matches_route(route, request),
    ensures
        add_at(router.routes(), parsed_path(path_text(route)), services).1 is Ok,
        !lookup_breaks(
            add_at(router.routes(), parsed_path(path_text(route)), services).0,
            parsed_path(path_text(request)),
        ),
        lookup(
            add_at(router.routes(), parsed_path(path_text(route)), services).0,
            parsed_path(path_text(request)),
        ) == Some(
            Ok::<(NodeView<S>, Map<Seq<char>, Seq<char>>), SegmentParseError>((
                with_methods(fresh_node(route.last()), services),
                bound_vars(route, request, Map::empty()),
            )),
        ),
{
    reveal_strlit("/");
    law_parsed_path_text(route);
    law_parsed_path_text(request);
    assert(well_written(route[0]));
    assert(well_written(request[0]));
    law_route_then_lookup(route, request, services);
    assert(all_static(request));
    lemma_static_text_plain(request);
    let t = add_at(router.routes(), parsed_path(path_text(route)), services).0;
    law_plain_paths_never_break(t, path_text(request));
}

/// What a router is for, whatever it already holds: given `services` under a
/// path written from static segments, it answers that path with those
/// services and binds nothing. Such a lookup never slices a text badly.
///
/// The route must not repeat a segment right after itself.
pub proof fn law_router_finds_static_route<S>(
    router: Router<S>,
    route: Seq<SegmentView>,
    services: ServiceCollection<S>,
)
    requires
        tree_wf(router.routes()),
        route.len() > 0,
        all_static(route),
        no_repeats(route),
        all_well_written(route),
    ensures
        add_at(router.routes(), parsed_path(path_text(route)), services).1 is Ok,
        !lookup_breaks(
            add_at(router.routes(), parsed_path(path_text(route)), services).0,
            parsed_path(path_text(route)),
        ),
        lookup(
            add_at(router.routes(), parsed_path(path_text(route)), services).0,
            parsed_path(path_text(route)),
        ) matches Some(Ok((n, vars))) && n.methods == services && vars == Map::<
            Seq<char>,
            Seq<char>,
        >::empty(),
{
    law_parsed_path_text(route);
    law_static_route_found(router.routes(), route, services);
    lemma_static_text_plain(route);
    let t = add_at(router.routes(), parsed_path(path_text(route)), services).0;
    law_plain_paths_never_break(t, path_text(route));
}

/// Routes live side by side: a fresh router given `first` under the path
/// written from `route` and then `second` under the path written from the
/// static segments `other` answers both. A request path that matches `first` finds the node
/// that holds `first`, with the route's pattern names bound to the request's
/// segments; the second path finds `second` and binds nothing. Neither lookup
/// slices a text badly.
///
/// Neither route may repeat a segment right after itself, and the second path
/// must follow the first route for its first segments and then part from the
/// request, by ending or by a different segment (a request that enters the
/// second route's own branch is answered there).
pub proof fn law_routes_side_by_side<S>(
    router: Router<S>,
    route: Seq<SegmentView>,
    request: Seq<SegmentView>,
    first: ServiceCollection<S>,
    other: Seq<SegmentView>,
    second: ServiceCollection<S>,
)
    requires
        router.routes() == fresh_node::<S>(SegmentView::Static("/"@)),
        route.len() > 0,
        no_repeats(route),
        all_well_written(route),
        all_well_written(request),
        matches_route(route, request),
        other.len() > 0,
        all_static(other),
        no_repeats(other),
        all_well_written(other),
        parts_after_common(route, other, request),
    ensures
        ({
            let t1 = add_at(router.routes(), parsed_path(path_text(route)), first).0;
            let (t2, r2) = add_at(t1, parsed_path(path_text(other)), second);
            &&& r2 is Ok
            &&& !lookup_breaks(t2, parsed_path(path_text(request)))
            &&& lookup(t2, parsed_path(path_text(request))) == Some(
                Ok::<(NodeView<S>, Map<Seq<char>, Seq<char>>), SegmentParseError>((
                    with_methods(fresh_node(route.last()), first),
                    bound_vars(route, request, Map::empty()),
                )),
            )
            &&& !lookup_breaks(t2, parsed_path(path_text(other)))
            &&& lookup(t2, parsed_path(path_text(other))) matches Some(Ok((n, vars))) && n.methods
                == second && vars == Map::<Seq<char>, Seq<char>>::empty()
        }),
{
    reveal_strlit("/");
    law_fresh_router_finds_route(router, route, request, first);
    let t0 = router.routes();
    let t1 = add_at(t0, parsed_path(path_text(route)), first).0;
    law_fresh_tree_wf::<S>(SegmentView::Static("/"@));
    law_add_keeps_wf(t0, parsed_path(path_text(route)), first);
    lemma_add_keeps_segment(t0, parsed_path(path_text(route)), first);
    law_parsed_path_text(other);
    law_parsed_path_text(request);
    assert(well_written(other[0]));
    assert(well_written(request[0]));
    assert(other[0].is_static());
    law_parsed_path_text(route);
    assert(well_written(route[0]));
    lemma_parts_after_route(route, first, other, request);
    law_other_route_kept(t1, parsed_path(path_text(other)), second, parsed_path(path_text(request)));
    law_static_route_found(t1, other, second);
    lemma_static_text_plain(other);
    let t2 = add_at(t1, parsed_path(path_text(other)), second).0;
    law_plain_paths_never_break(t2, path_text(other));
}

/// What a fresh router binds: for a request path that matches a route, each
/// pattern of the route (with no later pattern of the same name) is bound to
/// the request's segment in its place, so that `/` followed by the bound value
/// gives back that segment's text exactly.
pub proof fn law_fresh_router_binds_patterns<S>(
    router: Router<S>,
    route: Seq<SegmentView>,
    request: Seq<SegmentView>,
    services: ServiceCollection<S>,
    k: int,
)
    requires
        router.routes() == fresh_node::<S>(SegmentView::Static("/"@)),
        route.len() > 0,
        no_repeats(route),
        all_well_written(route),
        all_well_written(request),
        matches_route(route, request),
        0 <= k < route.len(),
        route[k] is Pattern,
        forall|j: int| k < j < route.len() ==> #[trigger] route[j] != route[k],
    ensures
        lookup(
            add_at(router.routes(), parsed_path(path_text(route)), services).0,
            parsed_path(path_text(request)),
        ) matches Some(Ok((n, vars))) && vars.dom().contains(route[k]->Pattern_0) && seq!['/']
            + vars[route[k]->Pattern_0] == request[k].text(),
{
    law_fresh_router_finds_route(router, route, request, services);
    law_bound_vars_at(route, request, Map::empty(), k);
    let t = request[k].text();
    assert(well_written(request[k]));
    assert(seq!['/'] + t.subrange(1, t.len() as int) =~= t);
}

} // verus!
