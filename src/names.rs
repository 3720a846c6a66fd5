//! Names for waypoints and routes, from the names of the roads they touch.
use vstd::prelude::*;
use vstd::string::StringExecFns;

use crate::graph::{Coord, Edge, NodeID};
use crate::route::Waypoint;
use crate::snap::is_nearest_node;
use crate::snapper::{record_coord, JsRouteSnapper, RouteWaypoint, SnapError};

verus! {

/// Lexicographic order on strings, by code point (the order of `str`).
pub open spec fn lex_lt(a: Seq<char>, b: Seq<char>) -> bool
    decreases a.len(),
{
    if a.len() == 0 {
        b.len() > 0
    } else if b.len() == 0 {
        false
    } else if a[0] != b[0] {
        (a[0] as int) < (b[0] as int)
    } else {
        lex_lt(a.drop_first(), b.drop_first())
    }
}

proof fn lemma_lex_irreflexive(a: Seq<char>)
    ensures
        !lex_lt(a, a),
    decreases a.len(),
{
    if a.len() > 0 {
        lemma_lex_irreflexive(a.drop_first());
    }
}

proof fn lemma_lex_total(a: Seq<char>, b: Seq<char>)
    ensures
        a == b || lex_lt(a, b) || lex_lt(b, a),
    decreases a.len(),
{
    if a.len() > 0 && b.len() > 0 && a[0] == b[0] {
        lemma_lex_total(a.drop_first(), b.drop_first());
        if a.drop_first() == b.drop_first() {
            assert(a =~= seq![a[0]] + a.drop_first());
            assert(b =~= seq![b[0]] + b.drop_first());
        }
    } else if a.len() > 0 && b.len() > 0 {
        assert((a[0] as int) != (b[0] as int));
    } else if a.len() == 0 && b.len() == 0 {
        assert(a =~= b);
    }
}

proof fn lemma_lex_asymmetric(a: Seq<char>, b: Seq<char>)
    requires
        lex_lt(a, b),
    ensures
        !lex_lt(b, a),
    decreases a.len(),
{
    if a.len() > 0 && b.len() > 0 && a[0] == b[0] {
        lemma_lex_asymmetric(a.drop_first(), b.drop_first());
    }
}

proof fn lemma_lex_transitive(a: Seq<char>, b: Seq<char>, c: Seq<char>)
    requires
        lex_lt(a, b),
        lex_lt(b, c),
    ensures
        lex_lt(a, c),
    decreases a.len(),
{
    if a.len() > 0 && b.len() > 0 && c.len() > 0 && a[0] == b[0] && b[0] == c[0] {
        lemma_lex_transitive(a.drop_first(), b.drop_first(), c.drop_first());
    }
}

/// Whether `a` comes before `b`.
fn str_less(a: &String, b: &String) -> (r: bool)
    ensures
        r == lex_lt(a@, b@),
{
    let la = a.as_str().unicode_len();
    let lb = b.as_str().unicode_len();
    let mut i: usize = 0;
    proof {
        assert(a@.skip(0) =~= a@);
        assert(b@.skip(0) =~= b@);
    }
    while i < la && i < lb
        invariant
            la == a@.len(),
            lb == b@.len(),
            0 <= i <= la,
            i <= lb,
            lex_lt(a@, b@) == lex_lt(a@.skip(i as int), b@.skip(i as int)),
        decreases la - i,
    {
        let ca = a.as_str().get_char(i);
        let cb = b.as_str().get_char(i);
        proof {
            assert(a@.skip(i as int)[0] == ca);
            assert(b@.skip(i as int)[0] == cb);
            assert(a@.skip(i as int).drop_first() =~= a@.skip(i + 1));
            assert(b@.skip(i as int).drop_first() =~= b@.skip(i + 1));
        }
        if ca != cb {
            return (ca as u32) < (cb as u32);
        }
        i += 1;
    }
    i == la && i < lb
}

/// Strictly increasing: sorted, without repeats.
pub open spec fn strictly_sorted(v: Seq<Seq<char>>) -> bool {
    forall|i: int, j: int| 0 <= i < j < v.len() ==> lex_lt(#[trigger] v[i], #[trigger] v[j])
}

pub open spec fn names_view(v: Seq<String>) -> Seq<Seq<char>> {
    v.map_values(|s: String| s@)
}

/// Inserts `x` into the sorted `v`, unless it is already there.
fn insert_sorted(v: &mut Vec<String>, x: String)
    requires
        strictly_sorted(names_view(old(v)@)),
    ensures
        strictly_sorted(names_view(final(v)@)),
        names_view(final(v)@).to_set() == names_view(old(v)@).to_set().insert(x@),
{
    let n = v.len();
    let mut p: usize = 0;
    while p < n
        invariant
            n == v@.len(),
            0 <= p <= n,
            forall|k: int| 0 <= k < p ==> lex_lt(#[trigger] v@[k]@, x@),
        ensures
            0 <= p <= n,
            forall|k: int| 0 <= k < p ==> lex_lt(#[trigger] v@[k]@, x@),
            p < n ==> !lex_lt(v@[p as int]@, x@),
        decreases n - p,
    {
        if !str_less(&v[p], &x) {
            break;
        }
        p += 1;
    }
    let ghost old_names = names_view(v@);
    if p < n && v[p] == x {
        proof {
            assert(old_names[p as int] == x@);
            assert(old_names.to_set().insert(x@) =~= old_names.to_set());
        }
        return;
    }
    proof {
        if p < n {
            lemma_lex_total(v@[p as int]@, x@);
        }
    }
    v.insert(p, x);
    proof {
        let nv = names_view(v@);
        assert(nv =~= old_names.insert(p as int, x@));
        assert forall|i: int, j: int| 0 <= i < j < nv.len() implies lex_lt(
            #[trigger] nv[i],
            #[trigger] nv[j],
        ) by {
            if j < p {
            } else if j == p {
                assert(lex_lt(old_names[i], x@));
            } else if i < p {
                assert(lex_lt(old_names[i], x@));
                if j - 1 > p {
                    assert(lex_lt(old_names[p as int], old_names[j - 1]));
                    assert(lex_lt(x@, old_names[p as int]));
                    lemma_lex_transitive(x@, old_names[p as int], old_names[j - 1]);
                }
                lemma_lex_transitive(old_names[i], x@, old_names[j - 1]);
            } else if i == p {
                if j - 1 > p {
                    assert(lex_lt(old_names[p as int], old_names[j - 1]));
                    lemma_lex_transitive(x@, old_names[p as int], old_names[j - 1]);
                }
            } else {
                assert(nv[i] == old_names[i - 1]);
                assert(nv[j] == old_names[j - 1]);
            }
        }
        assert forall|s: Seq<char>| nv.to_set().contains(s) <==> old_names.to_set().insert(
            x@,
        ).contains(s) by {
            if nv.to_set().contains(s) {
                let k = choose|k: int| 0 <= k < nv.len() && nv[k] == s;
                if k < p {
                    assert(old_names[k] == s);
                } else if k > p {
                    assert(old_names[k - 1] == s);
                }
            }
            if old_names.to_set().contains(s) {
                let k = choose|k: int| 0 <= k < old_names.len() && old_names[k] == s;
                if k < p {
                    assert(nv[k] == s);
                } else {
                    assert(nv[k + 1] == s);
                }
            }
            if s == x@ {
                assert(nv[p as int] == s);
            }
        }
        assert(nv.to_set() =~= old_names.to_set().insert(x@));
    }
}


/// The non-empty names of the edges that touch node `n`.
pub open spec fn incident_names(edges: Seq<Edge>, n: NodeID) -> Set<Seq<char>> {
    Set::new(
        |s: Seq<char>|
            exists|i: int|
                0 <= i < edges.len() && (edges[i].node1 == n || edges[i].node2 == n) && has_name(
                    #[trigger] edges[i],
                    s,
                ),
    )
}

/// Whether the edge is named `s`, a non-empty name.
pub open spec fn has_name(e: Edge, s: Seq<char>) -> bool {
    match e.name {
        Some(nm) => nm@ == s && s.len() > 0,
        None => false,
    }
}

/// The words between item `idx` and the one before it in a list of `len`.
pub open spec fn separator(idx: int, len: int) -> Seq<char> {
    if idx == 0 {
        Seq::empty()
    } else if idx == len - 1 {
        if len == 2 {
            " and "@
        } else {
            ", and "@
        }
    } else {
        ", "@
    }
}

/// The first `k` names as a list in words: "A", "A and B", "A, B, and C".
pub open spec fn list_text(names: Seq<Seq<char>>, k: int) -> Seq<char>
    decreases k,
{
    if k <= 0 {
        Seq::empty()
    } else {
        list_text(names, k - 1) + separator(k - 1, names.len() as int) + names[k - 1]
    }
}

/// A name from sorted road names: their list, or "???" when there are none.
pub open spec fn name_text(names: Seq<Seq<char>>) -> Seq<char> {
    if names.len() == 0 {
        "???"@
    } else {
        list_text(names, names.len() as int)
    }
}

/// The names of the roads at a node, sorted, each once.
pub open spec fn sorted_names_of(edges: Seq<Edge>, n: NodeID, names: Seq<Seq<char>>) -> bool {
    strictly_sorted(names) && names.to_set() == incident_names(edges, n)
}

/// Lists names in words: "A", "A and B", "A, B, and C".
pub fn plain_list_names(names: &Vec<String>) -> (r: String)
    ensures
        r@ == list_text(names_view(names@), names@.len() as int),
{
    let mut s = String::new();
    let len = names.len();
    let mut idx: usize = 0;
    while idx < len
        invariant
            len == names@.len(),
            0 <= idx <= len,
            s@ == list_text(names_view(names@), idx as int),
        decreases len - idx,
    {
        if idx != 0 {
            if idx == len - 1 {
                if len == 2 {
                    s.append(" and ");
                } else {
                    s.append(", and ");
                }
            } else {
                s.append(", ");
            }
        }
        s.append(names[idx].as_str());
        idx += 1;
    }
    s
}

/// "Route from A to B".
pub open spec fn route_text(from: Seq<char>, to: Seq<char>) -> Seq<char> {
    "Route from "@ + from + " to "@ + to
}

fn route_name(from: &String, to: &String) -> (r: String)
    ensures
        r@ == route_text(from@, to@),
{
    let mut s = String::new();
    s.append("Route from ");
    s.append(from.as_str());
    s.append(" to ");
    s.append(to.as_str());
    s
}

impl JsRouteSnapper {
    /// The sorted names of the roads at node `node`, each once.
    fn names_at(&self, node: NodeID) -> (r: Vec<String>)
        ensures
            sorted_names_of(self.router.map.edges@, node, names_view(r@)),
    {
        let edges = &self.router.map.edges;
        let n = edges.len();
        let mut names: Vec<String> = Vec::new();
        let mut i: usize = 0;
        proof {
            assert(names_view(names@).to_set() =~= incident_names(edges@.take(0), node));
        }
        while i < n
            invariant
                n == edges@.len(),
                0 <= i <= n,
                strictly_sorted(names_view(names@)),
                names_view(names@).to_set() == incident_names(edges@.take(i as int), node),
            decreases n - i,
        {
            let e = &edges[i];
            let ghost before = names_view(names@).to_set();
            let ghost pre = edges@.take(i as int);
            let ghost post = edges@.take(i + 1);
            let mut added = false;
            if e.node1 == node || e.node2 == node {
                if let Some(nm) = &e.name {
                    if nm.as_str().unicode_len() > 0 {
                        insert_sorted(&mut names, nm.clone());
                        added = true;
                    }
                }
            }
            proof {
                assert forall|s: Seq<char>| #[trigger] incident_names(post, node).contains(s) <==> (
                before.contains(s) || (added && has_name(*e, s))) by {
                    if incident_names(post, node).contains(s) {
                        let k = choose|k: int|
                            0 <= k < post.len() && (post[k].node1 == node || post[k].node2 == node)
                                && has_name(#[trigger] post[k], s);
                        if k < i {
                            assert(pre[k] == post[k]);
                            assert(incident_names(pre, node).contains(s));
                        }
                    }
                    if before.contains(s) {
                        assert(incident_names(pre, node).contains(s));
                        let k = choose|k: int|
                            0 <= k < pre.len() && (pre[k].node1 == node || pre[k].node2 == node)
                                && has_name(#[trigger] pre[k], s);
                        assert(post[k] == pre[k]);
                    }
                    if added && has_name(*e, s) {
                        assert(post[i as int] == *e);
                    }
                }
                assert(names_view(names@).to_set() =~= incident_names(post, node));
            }
            i += 1;
        }
        proof {
            assert(edges@.take(n as int) =~= edges@);
        }
        names
    }

    /// A waypoint's name: for a snapped one, the names of the roads at its
    /// node in words, or "???" when they have none; "???" for a free one.
    pub fn name_waypoint(&self, waypt: &Waypoint) -> (r: String)
        ensures
            self.name_waypoint_spec(*waypt, r),
    {
        match waypt {
            Waypoint::Snapped(node) => {
                let names = self.names_at(*node);
                if names.len() == 0 {
                    "???".to_string()
                } else {
                    plain_list_names(&names)
                }
            },
            Waypoint::Free(_) => "???".to_string(),
        }
    }

    /// The name of a recorded waypoint: "???" when it is free, otherwise the
    /// name of a node nearest to it. Fails when there is no node.
    pub fn name_for_waypoint(&self, waypoint: &RouteWaypoint) -> (r: Result<String, SnapError>)
        requires
            self.wf(),
        ensures
            !waypoint.snapped ==> (r matches Ok(s) && s@ == "???"@),
            waypoint.snapped && self.nodes().len() == 0 ==> r == Err::<String, SnapError>(
                SnapError::SnapFailed,
            ),
            waypoint.snapped && self.nodes().len() > 0 ==> (r matches Ok(s)
                && self.name_for_waypoint_spec(*waypoint, s)),
    {
        if !waypoint.snapped {
            return Ok("???".to_string());
        }
        let pt = Coord { x: waypoint.lon, y: waypoint.lat };
        match self.mouseover_node(pt) {
            Some(node) => Ok(self.name_waypoint(&Waypoint::Snapped(node))),
            None => Err(SnapError::SnapFailed),
        }
    }

    /// "Route from A to B", naming the first and last recorded waypoints.
    pub fn route_name_for_waypoints(&self, waypoints: &Vec<RouteWaypoint>) -> (r: Result<
        String,
        SnapError,
    >)
        requires
            self.wf(),
            waypoints@.len() >= 1,
        ensures
            r is Err <==> self.nodes().len() == 0 && (waypoints@[0].snapped || waypoints@.last().snapped),
            r matches Ok(s) ==> (exists|from: String, to: String|
                {
                    &&& #[trigger] self.name_for_waypoint_spec(waypoints@[0], from)
                    &&& #[trigger] self.name_for_waypoint_spec(waypoints@.last(), to)
                    &&& s@ == route_text(from@, to@)
                }),
    {
        let from_name = match self.name_for_waypoint(&waypoints[0]) {
            Ok(s) => s,
            Err(e) => {
                return Err(e);
            },
        };
        let to_name = match self.name_for_waypoint(&waypoints[waypoints.len() - 1]) {
            Ok(s) => s,
            Err(e) => {
                return Err(e);
            },
        };
        proof {
            assert(self.name_for_waypoint_spec(waypoints@[0], from_name));
            assert(self.name_for_waypoint_spec(waypoints@.last(), to_name));
        }
        Ok(route_name(&from_name, &to_name))
    }

    /// Whether `s` is a name that `name_for_waypoint` may give `rec`.
    pub open spec fn name_for_waypoint_spec(&self, rec: RouteWaypoint, s: String) -> bool {
        if !rec.snapped {
            s@ == "???"@
        } else {
            exists|n: NodeID, names: Seq<Seq<char>>|
                is_nearest_node(self.nodes(), record_coord(rec), n) && #[trigger] sorted_names_of(
                    self.router.map.edges@,
                    n,
                    names,
                ) && s@ == name_text(names)
        }
    }

    /// The name of the current route, from its first and last waypoints.
    pub fn route_name_of_waypoints(&self) -> (r: String)
        requires
            self.wps().len() >= 1,
        ensures
            exists|from: String, to: String|
                {
                    &&& #[trigger] self.name_waypoint_spec(self.wps()[0], from)
                    &&& #[trigger] self.name_waypoint_spec(self.wps().last(), to)
                    &&& r@ == route_text(from@, to@)
                },
    {
        let n = self.route.waypoints.len();
        let from_name = self.name_waypoint(&self.route.waypoints[0]);
        let to_name = self.name_waypoint(&self.route.waypoints[n - 1]);
        proof {
            assert(self.name_waypoint_spec(self.wps()[0], from_name));
            assert(self.name_waypoint_spec(self.wps().last(), to_name));
        }
        route_name(&from_name, &to_name)
    }

    /// Whether `s` is the name of waypoint `w`.
    pub open spec fn name_waypoint_spec(&self, w: Waypoint, s: String) -> bool {
        match w {
            Waypoint::Snapped(n) => exists|names: Seq<Seq<char>>|
                #[trigger] sorted_names_of(self.router.map.edges@, n, names) && s@ == name_text(
                    names,
                ),
            Waypoint::Free(_) => s@ == "???"@,
        }
    }
}

} // verus!
