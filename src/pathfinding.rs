//! Fuel-aware routing between the waypoints of one star system.
use vstd::prelude::*;
use crate::graph::{
    Adjacency, MAX_ARC_COST, MAX_NODES, arc_cost, has_arc, is_walk, shortest_walk,
    walk_cost, well_formed_graph,
};

verus! {

/// Largest absolute value of a coordinate: squared distances then fit in 64 bits.
pub const MAX_COORD: i64 = 1_000_000_000;

/// The flight modes a ship can navigate in.
#[derive(Clone, Copy, Debug, PartialEq, Eq, Structural)]
pub enum ShipFlightMode {
    Cruise,
    Burn,
    Drift,
    Stealth,
}

/// A waypoint as the router sees it: its symbol, coordinates, and whether it has a
/// market (where fuel can be bought).
#[derive(Clone, Debug)]
pub struct WaypointDetailed {
    pub symbol: String,
    pub x: i64,
    pub y: i64,
    pub is_market: bool,
}

/// A star system with its coordinates on the galaxy map.
#[derive(Clone, Debug)]
pub struct System {
    pub symbol: String,
    pub x: i64,
    pub y: i64,
}

/// One hop between two waypoints.
#[derive(Clone, Copy, Debug, PartialEq, Eq, Structural)]
pub struct Edge {
    pub distance: i64,
    pub travel_duration: i64,
    pub fuel_cost: i64,
    pub flight_mode: ShipFlightMode,
}

/// A route: each hop names the waypoint it arrives at, the edge flown, and whether
/// the hop's origin and destination are markets.
pub struct Route {
    pub hops: Vec<(String, Edge, bool, bool)>,
    pub min_travel_duration: i64,
    pub req_terminal_fuel: i64,
}

/// Why no route was returned.
#[derive(Clone, Copy, Debug, PartialEq, Eq, Structural)]
pub enum RouteError {
    UnknownWaypoint,
    NoRoute,
}

/// The router over one system's waypoints. For each waypoint without a market it
/// keeps the closest market and its distance.
pub struct Pathfinding {
    pub waypoints: Vec<WaypointDetailed>,
    pub closest_market: Vec<Option<(usize, i64)>>,
}

impl WaypointDetailed {
    pub open spec fn coords_ok(self) -> bool {
        -MAX_COORD <= self.x <= MAX_COORD && -MAX_COORD <= self.y <= MAX_COORD
    }

    pub fn is_market(&self) -> (r: bool)
        ensures
            r == self.is_market,
    {
        self.is_market
    }

    /// Straight-line distance, rounded, and at least 1 between distinct waypoints.
    pub fn distance(&self, other: &WaypointDetailed) -> (r: i64)
        requires
            self.coords_ok(),
            other.coords_ok(),
        ensures
            r == waypoint_distance(*self, *other),
            0 <= r <= 3_000_000_000,
    {
        if self.symbol == other.symbol {
            return 0;
        }
        planar_distance(self.x, self.y, other.x, other.y)
    }
}

impl System {
    pub open spec fn coords_ok(self) -> bool {
        -MAX_COORD <= self.x <= MAX_COORD && -MAX_COORD <= self.y <= MAX_COORD
    }

    /// Straight-line distance, rounded, and at least 1 between distinct systems.
    pub fn distance(&self, other: &System) -> (r: i64)
        requires
            self.coords_ok(),
            other.coords_ok(),
        ensures
            r == point_distance(self.symbol@, self.x as int, self.y as int, other.symbol@, other.x as int, other.y as int),
    {
        if self.symbol == other.symbol {
            return 0;
        }
        planar_distance(self.x, self.y, other.x, other.y)
    }
}

/// `r` is the square root of `n > 0` rounded to the nearest integer: the
/// intervals `(r*r - r, r*r + r]` split the positive integers.
pub open spec fn rounds_sqrt(n: int, r: int) -> bool {
    r >= 1 && r * r - r < n && n <= r * r + r
}

/// The square root of `n`, rounded to the nearest integer.
pub open spec fn round_sqrt(n: int) -> int {
    if n <= 0 {
        0
    } else {
        choose|r: int| rounds_sqrt(n, r)
    }
}

/// Distance between two named points: 0 for the same name, otherwise the rounded
/// Euclidean distance but at least 1.
pub open spec fn point_distance(sa: Seq<char>, xa: int, ya: int, sb: Seq<char>, xb: int, yb: int) -> int {
    if sa == sb {
        0
    } else {
        let n = (xa - xb) * (xa - xb) + (ya - yb) * (ya - yb);
        if round_sqrt(n) < 1 { 1 } else { round_sqrt(n) }
    }
}

pub open spec fn waypoint_distance(a: WaypointDetailed, b: WaypointDetailed) -> int {
    point_distance(a.symbol@, a.x as int, a.y as int, b.symbol@, b.x as int, b.y as int)
}

/// Seconds to fly `d` units at `speed` in Burn: `round(15 + 12.5 / speed * d)`.
pub open spec fn burn_duration(d: int, speed: int) -> int {
    15 + (25 * d + speed) / (2 * speed)
}

/// Seconds to fly `d` units at `speed` in Cruise: `round(15 + 25 / speed * d)`.
pub open spec fn cruise_duration(d: int, speed: int) -> int {
    15 + (50 * d + speed) / (2 * speed)
}

/// The edge over distance `d` with fuel budget `fuel_max`: Burn when twice the
/// distance fits the budget, else Cruise when the distance fits, else none.
pub open spec fn edge_for(d: int, speed: int, fuel_max: int) -> Option<Edge> {
    if 2 * d <= fuel_max {
        Some(
            Edge {
                distance: d as i64,
                travel_duration: burn_duration(d, speed) as i64,
                fuel_cost: (2 * d) as i64,
                flight_mode: ShipFlightMode::Burn,
            },
        )
    } else if d <= fuel_max {
        Some(
            Edge {
                distance: d as i64,
                travel_duration: cruise_duration(d, speed) as i64,
                fuel_cost: d as i64,
                flight_mode: ShipFlightMode::Cruise,
            },
        )
    } else {
        None
    }
}

proof fn lemma_rounds_sqrt_unique(n: int, r1: int, r2: int)
    requires
        rounds_sqrt(n, r1),
        rounds_sqrt(n, r2),
    ensures
        r1 == r2,
{
    if r1 < r2 {
        assert((r1 + 1) * (r1 + 1) - (r1 + 1) <= r2 * r2 - r2) by (nonlinear_arith)
            requires r1 + 1 <= r2, r1 >= 1;
        assert((r1 + 1) * (r1 + 1) - (r1 + 1) == r1 * r1 + r1) by (nonlinear_arith);
    } else if r2 < r1 {
        assert((r2 + 1) * (r2 + 1) - (r2 + 1) <= r1 * r1 - r1) by (nonlinear_arith)
            requires r2 + 1 <= r1, r2 >= 1;
        assert((r2 + 1) * (r2 + 1) - (r2 + 1) == r2 * r2 + r2) by (nonlinear_arith);
    }
}

/// The square root of `n`, rounded to the nearest integer, by bisection.
fn rounded_sqrt(n: u64) -> (r: u64)
    requires
        n <= 8_000_000_000_000_000_000,
    ensures
        r == round_sqrt(n as int),
        r <= 3_000_000_000,
{
    if n == 0 {
        return 0;
    }
    // lo*lo + lo < n <= hi*hi + hi
    let mut lo: u64 = 0;
    let mut hi: u64 = 3_000_000_000;
    assert(3_000_000_000u64 as int * 3_000_000_000u64 as int + 3_000_000_000u64 as int >= n as int);
    while hi - lo > 1
        invariant
            lo < hi <= 3_000_000_000,
            (lo as int) * (lo as int) + lo < n as int,
            n as int <= (hi as int) * (hi as int) + hi,
        decreases hi - lo,
    {
        let mid: u64 = lo + (hi - lo) / 2;
        assert((mid as int) * (mid as int) <= 9_000_000_000_000_000_000) by (nonlinear_arith)
            requires mid <= 3_000_000_000;
        let wide: u128 = (mid as u128) * (mid as u128) + (mid as u128);
        if wide >= n as u128 {
            hi = mid;
        } else {
            lo = mid;
        }
    }
    proof {
        let h = hi as int;
        assert((h - 1) * (h - 1) + (h - 1) == h * h - h) by (nonlinear_arith);
        assert(rounds_sqrt(n as int, h));
        lemma_rounds_sqrt_unique(n as int, h, choose|r: int| rounds_sqrt(n as int, r));
    }
    hi
}

/// Rounded Euclidean distance between two points of bounded coordinates, at least 1.
fn planar_distance(xa: i64, ya: i64, xb: i64, yb: i64) -> (r: i64)
    requires
        -MAX_COORD <= xa <= MAX_COORD,
        -MAX_COORD <= ya <= MAX_COORD,
        -MAX_COORD <= xb <= MAX_COORD,
        -MAX_COORD <= yb <= MAX_COORD,
    ensures
        ({
            let n = (xa - xb) * (xa - xb) + (ya - yb) * (ya - yb);
            r == if round_sqrt(n) < 1 { 1 } else { round_sqrt(n) }
        }),
        1 <= r <= 3_000_000_000,
{
    let dx: i64 = xa - xb;
    let dy: i64 = ya - yb;
    assert(dx * dx <= 4_000_000_000_000_000_000) by (nonlinear_arith)
        requires -2_000_000_000 <= dx <= 2_000_000_000;
    assert(dy * dy <= 4_000_000_000_000_000_000) by (nonlinear_arith)
        requires -2_000_000_000 <= dy <= 2_000_000_000;
    assert(dx * dx >= 0 && dy * dy >= 0) by (nonlinear_arith);
    let n: u64 = (dx * dx + dy * dy) as u64;
    let s = rounded_sqrt(n);
    if s < 1 {
        1
    } else {
        s as i64
    }
}

/// `(a + s) / (2 * s)`: the ratio `a / (2 * s)` rounded half up.
fn half_ratio_rounded(a: i64, s: i64) -> (r: i64)
    requires
        0 <= a <= 1_000_000_000_000,
        s >= 1,
    ensures
        r == (a + s) / (2 * s),
        0 <= r <= a + 1,
{
    let q: i128 = (a as i128 + s as i128) / (2 * s as i128);
    proof {
        let x = a as int + s as int;
        let d = 2 * s as int;
        vstd::arithmetic::div_mod::lemma_fundamental_div_mod(x, d);
        vstd::arithmetic::div_mod::lemma_mod_bound(x, d);
        let qq = x / d;
        let rem = x % d;
        assert(d * qq <= x);
        assert(qq >= 0) by (nonlinear_arith)
            requires x == d * qq + rem, 0 <= rem < d, x >= 0, d > 0;
        assert(a <= a * s) by (nonlinear_arith)
            requires a >= 0, s >= 1;
        assert(s * (2 * qq) <= s * (a + 1)) by (nonlinear_arith)
            requires d * qq <= a + s, d == 2 * s, a <= a * s;
        assert(2 * qq <= a + 1) by (nonlinear_arith)
            requires s * (2 * qq) <= s * (a + 1), s >= 1;
    }
    q as i64
}

/// The edge between `a` and `b` for a hop whose fuel budget is `fuel_max`.
pub fn edge(a: &WaypointDetailed, b: &WaypointDetailed, speed: i64, fuel_max: i64) -> (r: Option<Edge>)
    requires
        a.coords_ok(),
        b.coords_ok(),
        speed >= 1,
    ensures
        r == edge_for(waypoint_distance(*a, *b), speed as int, fuel_max as int),
        r is Some ==> 0 <= r->0.travel_duration <= MAX_ARC_COST,
        0 <= waypoint_distance(*a, *b) <= 3_000_000_000,
{
    let distance = a.distance(b);
    if 2 * distance <= fuel_max {
        let travel_duration = 15 + half_ratio_rounded(25 * distance, speed);
        return Some(
            Edge { distance, travel_duration, fuel_cost: 2 * distance, flight_mode: ShipFlightMode::Burn },
        );
    }
    if distance <= fuel_max {
        let travel_duration = 15 + half_ratio_rounded(50 * distance, speed);
        return Some(
            Edge { distance, travel_duration, fuel_cost: distance, flight_mode: ShipFlightMode::Cruise },
        );
    }
    None
}

/// No two waypoints share a symbol, and every coordinate is in bounds.
pub open spec fn valid_waypoints(ws: Seq<WaypointDetailed>) -> bool {
    &&& ws.len() <= MAX_NODES
    &&& forall|i: int| 0 <= i < ws.len() ==> #[trigger] ws[i].coords_ok()
    &&& forall|i: int, j: int|
        0 <= i < ws.len() && 0 <= j < ws.len() && i != j ==> ws[i].symbol@ != ws[j].symbol@
}

/// `c` is what the router keeps for waypoint `i`: nothing for a market; for any
/// other waypoint the first market at the least distance, or nothing when the system
/// has no market.
pub open spec fn is_closest_market(ws: Seq<WaypointDetailed>, i: int, c: Option<(usize, i64)>) -> bool {
    if ws[i].is_market {
        c is None
    } else {
        match c {
            None => forall|k: int| 0 <= k < ws.len() ==> !(#[trigger] ws[k].is_market),
            Some((j, d)) => {
                &&& 0 <= d <= 3_000_000_000
                &&& 0 <= j < ws.len()
                &&& ws[j as int].is_market
                &&& d == waypoint_distance(ws[i], ws[j as int])
                &&& forall|k: int|
                    0 <= k < ws.len() && #[trigger] ws[k].is_market ==> d <= waypoint_distance(ws[i], ws[k])
                &&& forall|k: int|
                    0 <= k < j && #[trigger] ws[k].is_market ==> d < waypoint_distance(ws[i], ws[k])
            },
        }
    }
}

impl Pathfinding {
    pub open spec fn wf(self) -> bool {
        &&& valid_waypoints(self.waypoints@)
        &&& self.closest_market@.len() == self.waypoints@.len()
        &&& forall|i: int|
            0 <= i < self.waypoints@.len() ==> is_closest_market(
                self.waypoints@,
                i,
                #[trigger] self.closest_market@[i],
            )
    }

    /// The index of the waypoint named `sym`, where there is one.
    pub open spec fn index_of(self, sym: Seq<char>) -> Option<int> {
        if exists|i: int| 0 <= i < self.waypoints@.len() && self.waypoints@[i].symbol@ == sym {
            Some(choose|i: int| 0 <= i < self.waypoints@.len() && self.waypoints@[i].symbol@ == sym)
        } else {
            None
        }
    }

    /// The fuel a ship must still hold on arriving at waypoint `t` to reach the
    /// closest market from there in Cruise (none when `t` is a market).
    pub open spec fn escape_fuel(self, t: int) -> Option<int> {
        if self.waypoints@[t].is_market {
            Some(0)
        } else {
            match self.closest_market@[t] {
                Some((_j, d)) => Some(d as int),
                None => None,
            }
        }
    }

    /// The fuel budget of a hop from `a` to `b` on a route from `s` to `t`:
    /// the full tank between markets, the starting fuel out of a non-market start,
    /// and, into a non-market destination, what leaves enough to escape it.
    pub open spec fn hop_budget(self, s: int, t: int, start_fuel: int, capacity: int, esc: int, a: int, b: int) -> Option<int> {
        let am = self.waypoints@[a].is_market;
        let bm = self.waypoints@[b].is_market;
        if a == b {
            None
        } else if am && bm {
            Some(capacity)
        } else if !am && bm {
            if a == s { Some(start_fuel) } else { None }
        } else if am && !bm {
            if b == t { Some(capacity - esc) } else { None }
        } else {
            if a == s && b == t { Some(start_fuel - esc) } else { None }
        }
    }

    /// The edge a route may fly from `a` to `b`, if any.
    pub open spec fn hop_edge(self, s: int, t: int, speed: int, start_fuel: int, capacity: int, esc: int, a: int, b: int) -> Option<Edge> {
        match self.hop_budget(s, t, start_fuel, capacity, esc, a, b) {
            Some(f) => edge_for(waypoint_distance(self.waypoints@[a], self.waypoints@[b]), speed, f),
            None => None,
        }
    }

    /// `p` goes from `s` to `t` by edges the route may fly.
    pub open spec fn is_route_walk(self, s: int, t: int, speed: int, start_fuel: int, capacity: int, esc: int, p: Seq<usize>) -> bool {
        &&& p.len() >= 1
        &&& p[0] as int == s
        &&& p.last() as int == t
        &&& forall|i: int| 0 <= i < p.len() ==> (#[trigger] p[i] as int) < self.waypoints@.len()
        &&& forall|i: int|
            0 <= i < p.len() - 1 ==> (#[trigger] self.hop_edge(s, t, speed, start_fuel, capacity, esc, p[i] as int, p[i + 1] as int)) is Some
    }

    /// Total travel time along `p`.
    pub open spec fn route_walk_cost(self, s: int, t: int, speed: int, start_fuel: int, capacity: int, esc: int, p: Seq<usize>) -> int
        decreases p.len(),
    {
        if p.len() <= 1 {
            0
        } else {
            self.route_walk_cost(s, t, speed, start_fuel, capacity, esc, p.drop_last())
                + self.hop_edge(s, t, speed, start_fuel, capacity, esc, p[p.len() - 2] as int, p.last() as int)->0.travel_duration
        }
    }

    /// The hops of `route` are the hops of `p`, each with the edge flown and the
    /// market flags of both ends.
    pub open spec fn hops_follow(self, s: int, t: int, speed: int, start_fuel: int, capacity: int, esc: int, p: Seq<usize>, hops: Seq<(String, Edge, bool, bool)>) -> bool {
        &&& hops.len() == p.len() - 1
        &&& forall|i: int|
            0 <= i < hops.len() ==> {
                let a = p[i] as int;
                let b = p[i + 1] as int;
                &&& (#[trigger] hops[i]).0@ == self.waypoints@[b].symbol@
                &&& hops[i].1 == self.hop_edge(s, t, speed, start_fuel, capacity, esc, a, b)->0
                &&& hops[i].2 == self.waypoints@[a].is_market
                &&& hops[i].3 == self.waypoints@[b].is_market
                &&& hops[i].1.fuel_cost <= self.hop_budget(s, t, start_fuel, capacity, esc, a, b)->0
            }
    }

    /// `route` flies the walk `p`, and no walk from `s` to `t` is quicker.
    pub open spec fn follows_quickest_walk(self, s: int, t: int, speed: int, start_fuel: int, capacity: int, esc: int, route: Route, p: Seq<usize>) -> bool {
        &&& self.is_route_walk(s, t, speed, start_fuel, capacity, esc, p)
        &&& self.hops_follow(s, t, speed, start_fuel, capacity, esc, p, route.hops@)
        &&& route.min_travel_duration == self.route_walk_cost(s, t, speed, start_fuel, capacity, esc, p)
        &&& forall|q: Seq<usize>| self.is_route_walk(s, t, speed, start_fuel, capacity, esc, q)
            ==> route.min_travel_duration <= self.route_walk_cost(s, t, speed, start_fuel, capacity, esc, q)
    }

    /// `route` flies some quickest walk from `s` to `t`.
    pub open spec fn is_quickest_route(self, s: int, t: int, speed: int, start_fuel: int, capacity: int, esc: int, route: Route) -> bool {
        exists|p: Seq<usize>| #[trigger] self.follows_quickest_walk(s, t, speed, start_fuel, capacity, esc, route, p)
    }

    /// Indexes the waypoints and finds, for each one without a market, the
    /// closest market.
    pub fn new(waypoints: Vec<WaypointDetailed>) -> (r: Pathfinding)
        requires
            valid_waypoints(waypoints@),
        ensures
            r.wf(),
            r.waypoints@ == waypoints@,
    {
        let n = waypoints.len();
        let mut closest_market: Vec<Option<(usize, i64)>> = Vec::new();
        let mut i: usize = 0;
        while i < n
            invariant
                n == waypoints@.len(),
                valid_waypoints(waypoints@),
                i <= n,
                closest_market@.len() == i,
                forall|k: int| 0 <= k < i ==> is_closest_market(waypoints@, k, #[trigger] closest_market@[k]),
            decreases n - i,
        {
            let c = closest_market_of(&waypoints, i);
            closest_market.push(c);
            i += 1;
        }
        Pathfinding { waypoints, closest_market }
    }
}

/// The first market at the least distance from waypoint `i`, if `i` is not itself a market.
fn closest_market_of(ws: &Vec<WaypointDetailed>, i: usize) -> (r: Option<(usize, i64)>)
    requires
        valid_waypoints(ws@),
        i < ws@.len(),
    ensures
        is_closest_market(ws@, i as int, r),
{
    if ws[i].is_market {
        return None;
    }
    let mut best: Option<(usize, i64)> = None;
    let mut j: usize = 0;
    while j < ws.len()
        invariant
            valid_waypoints(ws@),
            i < ws@.len(),
            !ws@[i as int].is_market,
            j <= ws@.len(),
            match best {
                None => forall|k: int| 0 <= k < j ==> !(#[trigger] ws@[k].is_market),
                Some((b, d)) => {
                    &&& 0 <= d <= 3_000_000_000
                    &&& 0 <= b < j
                    &&& ws@[b as int].is_market
                    &&& d == waypoint_distance(ws@[i as int], ws@[b as int])
                    &&& forall|k: int|
                        0 <= k < j && #[trigger] ws@[k].is_market ==> d <= waypoint_distance(ws@[i as int], ws@[k])
                    &&& forall|k: int|
                        0 <= k < b && #[trigger] ws@[k].is_market ==> d < waypoint_distance(ws@[i as int], ws@[k])
                },
            },
        decreases ws@.len() - j,
    {
        if ws[j].is_market {
            proof {
                assert(ws@[i as int].coords_ok());
                assert(ws@[j as int].coords_ok());
            }
            let d = ws[i].distance(&ws[j]);
            match best {
                None => {
                    best = Some((j, d));
                },
                Some((_b, bd)) => {
                    if d < bd {
                        best = Some((j, d));
                    }
                },
            }
        }
        j += 1;
    }
    best
}

/// Total travel time of a list of hops.
pub open spec fn hops_duration(hops: Seq<(String, Edge, bool, bool)>) -> int
    decreases hops.len(),
{
    if hops.len() == 0 {
        0
    } else {
        hops_duration(hops.drop_last()) + hops.last().1.travel_duration
    }
}

impl Pathfinding {
    /// The index of the waypoint named `sym`.
    fn find_waypoint(&self, sym: &String) -> (r: Option<usize>)
        requires
            self.wf(),
        ensures
            match r {
                Some(i) => self.index_of(sym@) == Some(i as int),
                None => self.index_of(sym@) is None,
            },
    {
        let mut i: usize = 0;
        while i < self.waypoints.len()
            invariant
                self.wf(),
                i <= self.waypoints@.len(),
                forall|k: int| 0 <= k < i ==> (#[trigger] self.waypoints@[k]).symbol@ != sym@,
            decreases self.waypoints@.len() - i,
        {
            if self.waypoints[i].symbol == *sym {
                proof {
                    let j = choose|j: int| 0 <= j < self.waypoints@.len() && self.waypoints@[j].symbol@ == sym@;
                    assert(j == i as int);
                }
                return Some(i);
            }
            i += 1;
        }
        None
    }

    /// The fuel budget of the hop from `a` to `b`, as `hop_budget` states it.
    fn budget_of(&self, s: usize, t: usize, start_fuel: i64, capacity: i64, esc: i64, a: usize, b: usize) -> (r: Option<i64>)
        requires
            self.wf(),
            a < self.waypoints@.len(),
            b < self.waypoints@.len(),
            0 <= start_fuel,
            0 <= capacity,
            0 <= esc <= 3_000_000_000,
        ensures
            match r {
                Some(f) => self.hop_budget(s as int, t as int, start_fuel as int, capacity as int, esc as int, a as int, b as int) == Some(f as int),
                None => self.hop_budget(s as int, t as int, start_fuel as int, capacity as int, esc as int, a as int, b as int) is None,
            },
    {
        let am = self.waypoints[a].is_market;
        let bm = self.waypoints[b].is_market;
        if a == b {
            None
        } else if am && bm {
            Some(capacity)
        } else if !am && bm {
            if a == s { Some(start_fuel) } else { None }
        } else if am && !bm {
            if b == t { Some(capacity - esc) } else { None }
        } else {
            if a == s && b == t { Some(start_fuel - esc) } else { None }
        }
    }

    /// The edge of the hop from `a` to `b`, as `hop_edge` states it.
    fn hop_edge_of(&self, s: usize, t: usize, speed: i64, start_fuel: i64, capacity: i64, esc: i64, a: usize, b: usize) -> (r: Option<Edge>)
        requires
            self.wf(),
            a < self.waypoints@.len(),
            b < self.waypoints@.len(),
            speed >= 1,
            0 <= start_fuel,
            0 <= capacity,
            0 <= esc <= 3_000_000_000,
        ensures
            r == self.hop_edge(s as int, t as int, speed as int, start_fuel as int, capacity as int, esc as int, a as int, b as int),
            r is Some ==> 0 <= r->0.travel_duration <= MAX_ARC_COST,
            r is Some ==> r->0.fuel_cost <= self.hop_budget(s as int, t as int, start_fuel as int, capacity as int, esc as int, a as int, b as int)->0,
    {
        match self.budget_of(s, t, start_fuel, capacity, esc, a, b) {
            Some(f) => {
                proof {
                    assert(self.waypoints@[a as int].coords_ok());
                    assert(self.waypoints@[b as int].coords_ok());
                }
                edge(&self.waypoints[a], &self.waypoints[b], speed, f)
            },
            None => None,
        }
    }

    /// The graph of the hops a route from `s` to `t` may fly, weighted by travel time.
    fn route_graph(&self, s: usize, t: usize, speed: i64, start_fuel: i64, capacity: i64, esc: i64) -> (adj: Adjacency)
        requires
            self.wf(),
            speed >= 1,
            0 <= start_fuel,
            0 <= capacity,
            0 <= esc <= 3_000_000_000,
        ensures
            adj@.len() == self.waypoints@.len(),
            well_formed_graph(adj@),
            forall|a: int, b: int|
                0 <= a < adj@.len() && 0 <= b < adj@.len() ==> {
                    &&& #[trigger] has_arc(adj@, a, b) == self.hop_edge(s as int, t as int, speed as int, start_fuel as int, capacity as int, esc as int, a, b) is Some
                    &&& has_arc(adj@, a, b) ==> arc_cost(adj@, a, b) == self.hop_edge(s as int, t as int, speed as int, start_fuel as int, capacity as int, esc as int, a, b)->0.travel_duration
                },
    {
        let n = self.waypoints.len();
        let ghost he = |a: int, b: int| self.hop_edge(s as int, t as int, speed as int, start_fuel as int, capacity as int, esc as int, a, b);
        let mut adj: Adjacency = Vec::new();
        let mut a: usize = 0;
        while a < n
            invariant
                self.wf(),
                n == self.waypoints@.len(),
                speed >= 1,
                0 <= start_fuel,
                0 <= capacity,
                0 <= esc <= 3_000_000_000,
                a <= n,
                adj@.len() == a,
                he == (|a: int, b: int| self.hop_edge(s as int, t as int, speed as int, start_fuel as int, capacity as int, esc as int, a, b)),
                forall|x: int, k: int|
                    0 <= x < a && 0 <= k < adj@[x]@.len() ==> {
                        &&& (adj@[x]@[k].0 as int) < n
                        &&& he(x, adj@[x]@[k].0 as int) is Some
                        &&& adj@[x]@[k].1 == he(x, adj@[x]@[k].0 as int)->0.travel_duration
                        &&& 0 <= adj@[x]@[k].1 <= MAX_ARC_COST
                    },
                forall|x: int, k: int, l: int|
                    0 <= x < a && 0 <= k < l < adj@[x]@.len() ==> adj@[x]@[k].0 < adj@[x]@[l].0,
                forall|x: int, y: int|
                    0 <= x < a && 0 <= y < n && (#[trigger] he(x, y)) is Some ==> exists|k: int|
                        0 <= k < adj@[x]@.len() && adj@[x]@[k].0 as int == y,
            decreases n - a,
        {
            let mut row: Vec<(usize, i64)> = Vec::new();
            let mut b: usize = 0;
            while b < n
                invariant
                    self.wf(),
                    n == self.waypoints@.len(),
                    speed >= 1,
                    0 <= start_fuel,
                    0 <= capacity,
                    0 <= esc <= 3_000_000_000,
                    a < n,
                    b <= n,
                    he == (|a: int, b: int| self.hop_edge(s as int, t as int, speed as int, start_fuel as int, capacity as int, esc as int, a, b)),
                    forall|k: int|
                        0 <= k < row@.len() ==> {
                            &&& (row@[k].0 as int) < b
                            &&& he(a as int, row@[k].0 as int) is Some
                            &&& row@[k].1 == he(a as int, row@[k].0 as int)->0.travel_duration
                            &&& 0 <= row@[k].1 <= MAX_ARC_COST
                        },
                    forall|k: int, l: int| 0 <= k < l < row@.len() ==> row@[k].0 < row@[l].0,
                    forall|y: int|
                        0 <= y < b && (#[trigger] he(a as int, y)) is Some ==> exists|k: int|
                            0 <= k < row@.len() && row@[k].0 as int == y,
                decreases n - b,
            {
                let ghost old_row = row@;
                match self.hop_edge_of(s, t, speed, start_fuel, capacity, esc, a, b) {
                    Some(e) => {
                        row.push((b, e.travel_duration));
                        proof {
                            let last = row@.len() - 1;
                            assert(row@[last].0 as int == b as int);
                        }
                    },
                    None => {},
                }
                proof {
                    assert forall|y: int| 0 <= y < b + 1 && (#[trigger] he(a as int, y)) is Some implies exists|k: int|
                        0 <= k < row@.len() && row@[k].0 as int == y by {
                        if y < b {
                            let k = choose|k: int| 0 <= k < old_row.len() && old_row[k].0 as int == y;
                            assert(row@[k] == old_row[k]);
                        } else {
                            assert(row@[row@.len() - 1].0 as int == y);
                        }
                    }
                }
                b += 1;
            }
            let ghost old_adj = adj@;
            adj.push(row);
            proof {
                assert(adj@[a as int]@ == row@);
                assert forall|x: int, y: int|
                    0 <= x < a + 1 && 0 <= y < n && (#[trigger] he(x, y)) is Some implies exists|k: int|
                        0 <= k < adj@[x]@.len() && adj@[x]@[k].0 as int == y by {
                    if x < a {
                        assert(adj@[x] == old_adj[x]);
                    }
                }
            }
            a += 1;
        }
        proof {
            assert forall|x: int, k: int, l: int|
                0 <= x < adj@.len() && 0 <= k < adj@[x]@.len() && 0 <= l < adj@[x]@.len() && k != l
                    implies adj@[x]@[k].0 != adj@[x]@[l].0 by {
                if k < l {
                    assert(adj@[x]@[k].0 < adj@[x]@[l].0);
                } else {
                    assert(adj@[x]@[l].0 < adj@[x]@[k].0);
                }
            }
            assert forall|x: int, y: int| 0 <= x < adj@.len() && 0 <= y < adj@.len() implies {
                &&& #[trigger] has_arc(adj@, x, y) == he(x, y) is Some
                &&& has_arc(adj@, x, y) ==> arc_cost(adj@, x, y) == he(x, y)->0.travel_duration
            } by {
                if he(x, y) is Some {
                    let k = choose|k: int| 0 <= k < adj@[x]@.len() && adj@[x]@[k].0 as int == y;
                    assert(adj@[x]@[k].0 == y);
                }
            }
        }
        adj
    }
}

impl Pathfinding {
    proof fn lemma_walk_costs_agree(self, adj: Seq<Vec<(usize, i64)>>, s: int, t: int, speed: int, start_fuel: int, capacity: int, esc: int, p: Seq<usize>)
        requires
            adj.len() == self.waypoints@.len(),
            forall|a: int, b: int|
                0 <= a < adj.len() && 0 <= b < adj.len() ==> {
                    &&& #[trigger] has_arc(adj, a, b) == self.hop_edge(s, t, speed, start_fuel, capacity, esc, a, b) is Some
                    &&& has_arc(adj, a, b) ==> arc_cost(adj, a, b) == self.hop_edge(s, t, speed, start_fuel, capacity, esc, a, b)->0.travel_duration
                },
            forall|i: int| 0 <= i < p.len() ==> (#[trigger] p[i] as int) < adj.len(),
            forall|i: int| 0 <= i < p.len() - 1 ==> #[trigger] has_arc(adj, p[i] as int, p[i + 1] as int),
        ensures
            walk_cost(adj, p) == self.route_walk_cost(s, t, speed, start_fuel, capacity, esc, p),
        decreases p.len(),
    {
        if p.len() > 1 {
            let q = p.drop_last();
            assert forall|i: int| 0 <= i < q.len() - 1 implies #[trigger] has_arc(adj, q[i] as int, q[i + 1] as int) by {
                assert(has_arc(adj, p[i] as int, p[i + 1] as int));
            }
            assert forall|i: int| 0 <= i < q.len() implies (#[trigger] q[i] as int) < adj.len() by {
                assert((p[i] as int) < adj.len());
            }
            self.lemma_walk_costs_agree(adj, s, t, speed, start_fuel, capacity, esc, q);
            assert(has_arc(adj, p[p.len() - 2] as int, p[p.len() - 2 + 1] as int));
            assert((p[p.len() - 2] as int) < adj.len());
            assert((p[p.len() - 1] as int) < adj.len());
        }
    }

    proof fn lemma_walks_agree(self, adj: Seq<Vec<(usize, i64)>>, s: int, t: int, speed: int, start_fuel: int, capacity: int, esc: int, p: Seq<usize>)
        requires
            adj.len() == self.waypoints@.len(),
            0 <= s < adj.len(),
            well_formed_graph(adj),
            forall|a: int, b: int|
                0 <= a < adj.len() && 0 <= b < adj.len() ==> {
                    &&& #[trigger] has_arc(adj, a, b) == self.hop_edge(s, t, speed, start_fuel, capacity, esc, a, b) is Some
                    &&& has_arc(adj, a, b) ==> arc_cost(adj, a, b) == self.hop_edge(s, t, speed, start_fuel, capacity, esc, a, b)->0.travel_duration
                },
        ensures
            is_walk(adj, p, s, t) <==> self.is_route_walk(s, t, speed, start_fuel, capacity, esc, p),
            is_walk(adj, p, s, t) ==> walk_cost(adj, p) == self.route_walk_cost(s, t, speed, start_fuel, capacity, esc, p),
    {
        if is_walk(adj, p, s, t) {
            assert forall|i: int| 0 <= i < p.len() implies (#[trigger] p[i] as int) < adj.len() by {
                if i > 0 {
                    assert(has_arc(adj, p[i - 1] as int, p[i - 1 + 1] as int));
                    let row = adj[p[i - 1] as int]@;
                    let k = choose|k: int| 0 <= k < row.len() && #[trigger] row[k].0 == p[i] as int;
                    assert(row[k].0 == p[i]);
                }
            }
            assert forall|i: int| 0 <= i < p.len() - 1 implies (#[trigger] self.hop_edge(s, t, speed, start_fuel, capacity, esc, p[i] as int, p[i + 1] as int)) is Some by {
                assert(has_arc(adj, p[i] as int, p[i + 1] as int));
                assert((p[i] as int) < adj.len());
                assert((p[i + 1] as int) < adj.len());
            }
            self.lemma_walk_costs_agree(adj, s, t, speed, start_fuel, capacity, esc, p);
        }
        if self.is_route_walk(s, t, speed, start_fuel, capacity, esc, p) {
            assert forall|i: int| 0 <= i < p.len() - 1 implies #[trigger] has_arc(adj, p[i] as int, p[i + 1] as int) by {
                assert(self.hop_edge(s, t, speed, start_fuel, capacity, esc, p[i] as int, p[i + 1] as int) is Some);
                assert((p[i] as int) < adj.len());
                assert((p[i + 1] as int) < adj.len());
            }
        }
    }

    /// Finds a quickest route from `src_symbol` to `dest_symbol` for a ship with the
    /// given engine speed, starting fuel and tank capacity. Fuel can be bought at
    /// markets only: a hop out of a non-market start spends at most the starting
    /// fuel, and a hop into a non-market destination leaves enough fuel to reach the
    /// closest market from there in Cruise.
    pub fn get_route(&self, src_symbol: &String, dest_symbol: &String, speed: i64, start_fuel: i64, fuel_capacity: i64) -> (r: Result<Route, RouteError>)
        requires
            self.wf(),
            speed >= 1,
            start_fuel >= 0,
            fuel_capacity >= 0,
        ensures
            (r is Err && r->Err_0 == RouteError::UnknownWaypoint) <==> (self.index_of(src_symbol@) is None
                || self.index_of(dest_symbol@) is None),
            self.index_of(src_symbol@) is Some && self.index_of(dest_symbol@) is Some ==> {
                let s = self.index_of(src_symbol@)->0;
                let t = self.index_of(dest_symbol@)->0;
                match self.escape_fuel(t) {
                    None => r is Err && r->Err_0 == RouteError::NoRoute,
                    Some(esc) => match r {
                        Ok(route) => {
                            &&& route.req_terminal_fuel == esc
                            &&& route.min_travel_duration == hops_duration(route.hops@)
                            &&& self.is_quickest_route(s, t, speed as int, start_fuel as int, fuel_capacity as int, esc, route)
                        },
                        Err(e) => e == RouteError::NoRoute && forall|q: Seq<usize>|
                            !self.is_route_walk(s, t, speed as int, start_fuel as int, fuel_capacity as int, esc, q),
                    },
                }
            },
    {
        let s = match self.find_waypoint(src_symbol) {
            Some(i) => i,
            None => return Err(RouteError::UnknownWaypoint),
        };
        let t = match self.find_waypoint(dest_symbol) {
            Some(i) => i,
            None => return Err(RouteError::UnknownWaypoint),
        };
        let esc: i64 = if self.waypoints[t].is_market {
            0
        } else {
            match self.closest_market[t] {
                Some((_m, d)) => d,
                None => return Err(RouteError::NoRoute),
            }
        };
        proof {
            assert(is_closest_market(self.waypoints@, t as int, self.closest_market@[t as int]));
        }
        let adj = self.route_graph(s, t, speed, start_fuel, fuel_capacity, esc);
        let ghost (si, ti, sp, sf, cap, es) = (s as int, t as int, speed as int, start_fuel as int, fuel_capacity as int, esc as int);
        let (p, c) = match shortest_walk(&adj, s, t) {
            Some(found) => found,
            None => {
                proof {
                    assert forall|q: Seq<usize>| !self.is_route_walk(si, ti, sp, sf, cap, es, q) by {
                        self.lemma_walks_agree(adj@, si, ti, sp, sf, cap, es, q);
                    }
                }
                return Err(RouteError::NoRoute);
            },
        };
        proof {
            self.lemma_walks_agree(adj@, si, ti, sp, sf, cap, es, p@);
        }
        let mut hops: Vec<(String, Edge, bool, bool)> = Vec::new();
        let mut i: usize = 1;
        while i < p.len()
            invariant
                self.wf(),
                speed >= 1,
                start_fuel >= 0,
                fuel_capacity >= 0,
                0 <= esc <= 3_000_000_000,
                (si, ti, sp, sf, cap, es) == (s as int, t as int, speed as int, start_fuel as int, fuel_capacity as int, esc as int),
                1 <= i <= p@.len(),
                hops@.len() == i - 1,
                self.is_route_walk(si, ti, sp, sf, cap, es, p@),
                self.hops_follow(si, ti, sp, sf, cap, es, p@.take(i as int), hops@),
                hops_duration(hops@) == self.route_walk_cost(si, ti, sp, sf, cap, es, p@.take(i as int)),
            decreases p@.len() - i,
        {
            let a = p[i - 1];
            let b = p[i];
            proof {
                assert((p@[i - 1] as int) < self.waypoints@.len());
                assert((p@[i as int] as int) < self.waypoints@.len());
                assert(self.hop_edge(si, ti, sp, sf, cap, es, p@[i - 1] as int, p@[i - 1 + 1] as int) is Some);
            }
            let e = self.hop_edge_of(s, t, speed, start_fuel, fuel_capacity, esc, a, b).unwrap();
            let ghost old_hops = hops@;
            hops.push((self.waypoints[b].symbol.clone(), e, self.waypoints[a].is_market, self.waypoints[b].is_market));
            proof {
                let pt = p@.take(i + 1);
                assert(pt.drop_last() =~= p@.take(i as int));
                assert(hops@.drop_last() =~= old_hops);
                assert forall|j: int| 0 <= j < hops@.len() implies {
                    let a = pt[j] as int;
                    let b = pt[j + 1] as int;
                    &&& (#[trigger] hops@[j]).0@ == self.waypoints@[b].symbol@
                    &&& hops@[j].1 == self.hop_edge(si, ti, sp, sf, cap, es, a, b)->0
                    &&& hops@[j].2 == self.waypoints@[a].is_market
                    &&& hops@[j].3 == self.waypoints@[b].is_market
                    &&& hops@[j].1.fuel_cost <= self.hop_budget(si, ti, sf, cap, es, a, b)->0
                } by {
                    if j < old_hops.len() {
                        assert(hops@[j] == old_hops[j]);
                        assert(pt[j] == p@.take(i as int)[j]);
                        assert(pt[j + 1] == p@.take(i as int)[j + 1]);
                    }
                }
            }
            i += 1;
        }
        proof {
            assert(p@.take(p@.len() as int) =~= p@);
            assert(self.hops_follow(si, ti, sp, sf, cap, es, p@, hops@));
            assert(hops_duration(hops@) == c);
            assert(self.escape_fuel(ti) == Some(es)) by {
                assert(is_closest_market(self.waypoints@, ti, self.closest_market@[ti]));
            }
            assert forall|q: Seq<usize>| self.is_route_walk(si, ti, sp, sf, cap, es, q) implies c <= self.route_walk_cost(si, ti, sp, sf, cap, es, q) by {
                self.lemma_walks_agree(adj@, si, ti, sp, sf, cap, es, q);
            }
        }
        let route = Route { hops, min_travel_duration: c, req_terminal_fuel: esc };
        proof {
            assert(self.follows_quickest_walk(si, ti, sp, sf, cap, es, route, p@));
        }
        Ok(route)
    }
}

/// A waypoint is at distance 0 from itself, and distinct waypoints are at least 1 apart.
pub proof fn lemma_distance_bounds(a: WaypointDetailed, b: WaypointDetailed)
    ensures
        waypoint_distance(a, a) == 0,
        a.symbol@ != b.symbol@ ==> waypoint_distance(a, b) >= 1,
{
}

/// At the Burn/Cruise boundary: a budget of exactly `2d` flies Burn; one unit less,
/// while still at least `d`, flies Cruise; below `d` there is no edge.
pub proof fn lemma_flight_mode_boundary(d: int, speed: int, fuel_max: int)
    requires
        d >= 1,
    ensures
        fuel_max == 2 * d ==> (edge_for(d, speed, fuel_max) matches Some(e) && e.flight_mode == ShipFlightMode::Burn),
        fuel_max == 2 * d - 1 && fuel_max >= d ==> (edge_for(d, speed, fuel_max) matches Some(e) && e.flight_mode == ShipFlightMode::Cruise),
        fuel_max < d ==> edge_for(d, speed, fuel_max) is None,
{
}

} // verus!
