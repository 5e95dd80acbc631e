//! The transit network itself: stations, directed line-tagged connections,
//! the all-pairs distance matrix, trains and passengers.
//!
//! The central invariant (`wf`) is that the stored distance matrix always
//! equals the completed Floyd-Warshall value of the current connection
//! graph: every mutating call recomputes it in full before returning, so no
//! stale distance is ever observable.

use vstd::prelude::*;

use crate::geometry::{
    dist_add, dist_add_exec, euclid_dist, euclid_weight, in_world,
    lemma_euclid_weight_bound, Position, INF_DIST, MAX_EDGE_WEIGHT,
};
use crate::random::random_below;
use crate::shortest::{
    fw, is_path, lemma_fw_all_inf, lemma_fw_finite_has_path, lemma_fw_le_edge, lemma_fw_le_path,
    lemma_fw_pivot_stable, lemma_fw_triangle, path_weight, square_matrix,
};

verus! {

pub type StationId = usize;

pub type LineId = usize;

/// The "shape" a station has and a passenger seeks.
pub type StationKind = usize;

/// A passenger waiting for (or riding toward) a station of `target` kind.
#[derive(Clone, Copy, PartialEq, Eq, Structural, Debug)]
pub struct Passenger {
    pub target: StationKind,
}

/// A station: a fixed point on the plane with a kind, a spawn intensity and
/// a queue of waiting passengers.
#[derive(Clone)]
pub struct Station {
    pub passengers: Vec<Passenger>,
    pub kind: StationKind,
    /// How often new passengers spawn at the station, in thousandths
    /// (0 ..= 1000) per tick.
    pub intensity: u32,
    pub position: Position,
}

/// A station is well formed when its position lies in the coordinate world
/// and its intensity is a valid probability in thousandths.
pub open spec fn wf_station(s: Station) -> bool {
    &&& in_world(s.position)
    &&& s.intensity <= 1000
}

impl Station {
    /// A fresh station with no waiting passengers and the default intensity.
    pub fn new(kind: StationKind, position: Position) -> (s: Station)
        ensures
            s.kind == kind,
            s.position == position,
            s.passengers@ == Seq::<Passenger>::empty(),
            s.intensity == 500,
    {
        Station { kind, passengers: Vec::new(), intensity: 500, position }
    }
}

/// A train riding the edge from `last_station` to `next_station`.
pub struct Train {
    pub passengers: Vec<Passenger>,
    pub locomotive_count: usize,
    /// The line the train serves; used to pick its direction at a station.
    pub line_id: LineId,
    pub last_station: StationId,
    pub next_station: StationId,
    /// Distance covered along the current edge, in world units.
    pub traveled_distance: u64,
    pub stopped: bool,
}

impl Train {
    /// A fresh stopped train on the edge from `last_station` to `next_station`.
    pub fn new(last_station: StationId, next_station: StationId) -> (t: Train)
        ensures
            t.last_station == last_station,
            t.next_station == next_station,
            t.passengers@ == Seq::<Passenger>::empty(),
            t.locomotive_count == 1,
            t.line_id == 0,
            t.traveled_distance == 0,
            t.stopped,
    {
        Train {
            passengers: Vec::new(),
            locomotive_count: 1,
            line_id: 0,
            last_station,
            next_station,
            traveled_distance: 0,
            stopped: true,
        }
    }
}

/// One directed, line-tagged edge record inside a connection cell.
#[derive(Clone, Copy, PartialEq, Eq, Structural, Debug)]
pub struct Connection {
    pub line_id: LineId,
}

/// Whether some record in a connection cell carries line `l`.
pub open spec fn seq_has_line(s: Seq<Connection>, l: usize) -> bool {
    exists|t: int| 0 <= t < s.len() && (#[trigger] s[t]).line_id == l
}

/// No two records of the cell carry the same line.
pub open spec fn distinct_lines(s: Seq<Connection>) -> bool {
    forall|t1: int, t2: int| 0 <= t1 < t2 < s.len() ==> (#[trigger] s[t1]).line_id != (
    #[trigger] s[t2]).line_id
}

/// No value repeats in the sequence.
pub open spec fn distinct_ids(s: Seq<usize>) -> bool {
    forall|t1: int, t2: int| 0 <= t1 < t2 < s.len() ==> s[t1] != s[t2]
}

/// The transit network: stations, the square per-pair connection structure,
/// the trains, and the derived all-pairs distance matrix.
pub struct Metro {
    pub stations: Vec<Station>,
    /// `connections[a][b]` holds one record per line with a directed
    /// connection from station `a` to station `b`.
    pub connections: Vec<Vec<Vec<Connection>>>,
    pub trains: Vec<Train>,
    /// `distances[a][b]` is the shortest-path distance from `a` to `b`,
    /// `INF_DIST` when no path exists.
    pub distances: Vec<Vec<u64>>,
}

impl Metro {
    /// Number of stations.
    pub open spec fn n(self) -> int {
        self.stations@.len() as int
    }

    /// The connection records from station `i` to station `j`.
    pub open spec fn cell(self, i: int, j: int) -> Seq<Connection> {
        self.connections@[i]@[j]@
    }

    /// Whether line `l` connects `i` directly to `j` (in that direction).
    pub open spec fn cell_has_line(self, i: int, j: int, l: usize) -> bool {
        seq_has_line(self.cell(i, j), l)
    }

    /// Whether any line connects `i` directly to `j` (in that direction).
    pub open spec fn connected(self, i: int, j: int) -> bool {
        self.cell(i, j).len() > 0
    }

    /// Whether line `l` appears anywhere in the connection graph.
    pub open spec fn line_active(self, l: usize) -> bool {
        exists|i: int, j: int|
            0 <= i < self.n() && 0 <= j < self.n() && #[trigger] self.cell_has_line(i, j, l)
    }

    /// The edge weight from `i` to `j`: the Euclidean distance when a direct
    /// connection exists in that direction, "+infinity" otherwise.
    pub open spec fn weight(self, i: int, j: int) -> u64 {
        if self.connected(i, j) {
            euclid_weight(self.stations@[i].position, self.stations@[j].position) as u64
        } else {
            INF_DIST
        }
    }

    /// The full edge-weight matrix of the current connection graph.
    pub open spec fn weights(self) -> Seq<Seq<u64>> {
        Seq::new(self.n() as nat, |i: int| Seq::new(self.n() as nat, |j: int| self.weight(i, j)))
    }

    /// The shortest-path distance the network must report for `(i, j)`.
    pub open spec fn dist_spec(self, i: int, j: int) -> u64 {
        fw(self.weights(), self.n(), i, j)
    }

    /// A train is well formed when it rides an existing edge and has not
    /// overshot it.
    pub open spec fn wf_train(self, t: Train) -> bool {
        &&& t.last_station < self.n()
        &&& t.next_station < self.n()
        &&& t.traveled_distance <= euclid_weight(
            self.stations@[t.last_station as int].position,
            self.stations@[t.next_station as int].position,
        )
    }

    /// The connection structure is a square matrix of cells without
    /// duplicated `(pair, line)` records.
    pub open spec fn wf_conn(self) -> bool {
        &&& self.connections@.len() == self.n()
        &&& forall|i: int| 0 <= i < self.n() ==> (#[trigger] self.connections@[i])@.len()
            == self.n()
        &&& forall|i: int, j: int|
            0 <= i < self.n() && 0 <= j < self.n() ==> distinct_lines(#[trigger] self.cell(i, j))
    }

    /// The stored distance matrix is exactly the completed shortest-path
    /// matrix of the current graph.
    pub open spec fn wf_dist(self) -> bool {
        &&& self.distances@.len() == self.n()
        &&& forall|i: int| 0 <= i < self.n() ==> (#[trigger] self.distances@[i])@.len()
            == self.n()
        &&& forall|i: int, j: int|
            0 <= i < self.n() && 0 <= j < self.n() ==> #[trigger] self.distances@[i]@[j]
                == self.dist_spec(i, j)
    }

    /// Everything except distance consistency.
    pub open spec fn wf_base(self) -> bool {
        &&& forall|i: int| 0 <= i < self.n() ==> wf_station(#[trigger] self.stations@[i])
        &&& self.wf_conn()
        &&& forall|t: int| 0 <= t < self.trains@.len() ==> self.wf_train(
            #[trigger] self.trains@[t])
    }

    /// The network invariant: well-formed parts and a consistent distance
    /// matrix.
    pub open spec fn wf(self) -> bool {
        &&& self.wf_base()
        &&& self.wf_dist()
    }

    /// Every edge weight of a well-formed network is either a bounded
    /// Euclidean length or "+infinity"; in particular a finite weight means
    /// a direct connection.
    pub proof fn lemma_weight_cases(self, i: int, j: int)
        requires
            self.wf_base(),
            0 <= i < self.n(),
            0 <= j < self.n(),
        ensures
            self.connected(i, j) ==> self.weight(i, j) <= MAX_EDGE_WEIGHT,
            !self.connected(i, j) ==> self.weight(i, j) == INF_DIST,
            self.weight(i, j) < INF_DIST ==> self.connected(i, j),
    {
        if self.connected(i, j) {
            lemma_euclid_weight_bound(
                self.stations@[i].position,
                self.stations@[j].position,
            );
        }
    }

    /// Networks with the same station positions and the same connected
    /// pairs have the same weight matrix, hence the same shortest-path
    /// distances: mutating trains or passenger queues never disturbs the
    /// distance matrix.
    pub proof fn lemma_same_graph_same_dist(m1: Metro, m2: Metro)
        requires
            m1.n() == m2.n(),
            forall|i: int|
                0 <= i < m1.n() ==> (#[trigger] m1.stations@[i]).position
                    == m2.stations@[i].position,
            forall|i: int, j: int|
                0 <= i < m1.n() && 0 <= j < m1.n() ==> (#[trigger] m1.cell(i, j)).len() == (
                #[trigger] m2.cell(i, j)).len(),
        ensures
            m1.weights() == m2.weights(),
    {
        assert(m1.weights() =~~= m2.weights());
    }

    /// Mutations that touch neither the station count, nor any station
    /// position, nor any connection cell preserve the connection and
    /// distance parts of the invariant.
    proof fn lemma_graph_untouched(pre: Metro, cur: Metro)
        requires
            pre.wf(),
            cur.n() == pre.n(),
            cur.connections == pre.connections,
            cur.distances == pre.distances,
            forall|i: int|
                0 <= i < pre.n() ==> (#[trigger] cur.stations@[i]).position
                    == pre.stations@[i].position,
        ensures
            cur.wf_conn(),
            cur.wf_dist(),
    {
        assert forall|i: int, j: int|
            0 <= i < cur.n() && 0 <= j < cur.n() implies #[trigger] cur.cell(i, j) == pre.cell(
            i, j) by {}
        Metro::lemma_same_graph_same_dist(pre, cur);
        assert forall|i: int, j: int|
            0 <= i < cur.n() && 0 <= j < cur.n() implies distinct_lines(
            #[trigger] cur.cell(i, j)) by {
            assert(distinct_lines(pre.cell(i, j)));
        }
        assert forall|i: int, j: int|
            0 <= i < cur.n() && 0 <= j < cur.n() implies #[trigger] cur.distances@[i]@[j]
            == cur.dist_spec(i, j) by {
            assert(pre.distances@[i]@[j] == pre.dist_spec(i, j));
        }
    }

    /// Triangle inequality: after any edit, the reported distance from `a`
    /// to `c` never exceeds the (saturating) sum of the distances through
    /// any intermediate station `b`.
    pub proof fn lemma_distance_triangle(self, a: int, b: int, c: int)
        requires
            self.wf(),
            0 <= a < self.n(),
            0 <= b < self.n(),
            0 <= c < self.n(),
        ensures
            self.dist_spec(a, c) <= dist_add(self.dist_spec(a, b), self.dist_spec(b, c)),
    {
        lemma_fw_triangle(self.weights(), self.n(), a, b, c);
    }

    /// A finite reported distance exhibits a chain of directed connections
    /// from `a` to `b`; contrapositively, station pairs with no connecting
    /// path report `INF_DIST`.
    pub proof fn lemma_finite_distance_has_path(self, a: int, b: int) -> (p: Seq<int>)
        requires
            self.wf(),
            0 <= a < self.n(),
            0 <= b < self.n(),
            self.dist_spec(a, b) < INF_DIST,
        ensures
            is_path(p, self.n(), a, b),
            forall|m: int| 0 <= m < p.len() - 1 ==> self.connected(#[trigger] p[m], p[m + 1]),
    {
        let p = lemma_fw_finite_has_path(self.weights(), self.n(), a, b);
        assert forall|m: int|
            0 <= m < p.len() - 1 implies self.connected(#[trigger] p[m], p[m + 1]) by {
            assert(self.weights()[p[m]][p[m + 1]] == self.weight(p[m], p[m + 1]));
            self.lemma_weight_cases(p[m], p[m + 1]);
        }
        p
    }

    /// `p` is a walk from `a` to `b` whose every step is a stored directed
    /// connection.
    pub open spec fn connected_path(self, p: Seq<int>, a: int, b: int) -> bool {
        &&& is_path(p, self.n(), a, b)
        &&& forall|m: int| 0 <= m < p.len() - 1 ==> self.connected(#[trigger] p[m], p[m + 1])
    }

    /// Station pairs with no connecting path report "+infinity".
    pub proof fn lemma_unreachable_infinite(self, a: int, b: int)
        requires
            self.wf(),
            0 <= a < self.n(),
            0 <= b < self.n(),
            forall|p: Seq<int>| !(#[trigger] self.connected_path(p, a, b)),
        ensures
            self.dist_spec(a, b) == INF_DIST,
    {
        if self.dist_spec(a, b) < INF_DIST {
            let p = self.lemma_finite_distance_has_path(a, b);
            assert(self.connected_path(p, a, b));
        }
    }

    /// The weight matrix the shortest-path computation consumes is seeded
    /// directionally: the Euclidean length exactly where a direct
    /// connection exists in that direction, "+infinity" elsewhere.
    pub proof fn lemma_directed_seeding(self, i: int, j: int)
        requires
            self.wf(),
            0 <= i < self.n(),
            0 <= j < self.n(),
        ensures
            self.connected(i, j) ==> self.weights()[i][j] == euclid_weight(
                self.stations@[i].position,
                self.stations@[j].position,
            ),
            !self.connected(i, j) ==> self.weights()[i][j] == INF_DIST,
    {
        assert(self.weights()[i][j] == self.weight(i, j));
        if self.connected(i, j) {
            lemma_euclid_weight_bound(self.stations@[i].position, self.stations@[j].position);
        }
    }

    /// A direct connection bounds the reported distance by its own
    /// Euclidean length; in particular the distance is finite.
    pub proof fn lemma_direct_connection_finite(self, a: int, b: int)
        requires
            self.wf(),
            0 <= a < self.n(),
            0 <= b < self.n(),
            self.connected(a, b),
        ensures
            self.dist_spec(a, b) <= euclid_weight(
                self.stations@[a].position,
                self.stations@[b].position,
            ),
            self.dist_spec(a, b) < INF_DIST,
    {
        lemma_fw_le_edge(self.weights(), self.n(), a, b);
        self.lemma_directed_seeding(a, b);
        self.lemma_weight_cases(a, b);
    }

    /// With no directed connection leaving `b`, nothing is reachable from
    /// it, whatever leads into it: together with
    /// `lemma_direct_connection_finite` this makes a single directed
    /// connection observable as an asymmetric distance pair.
    pub proof fn lemma_no_outgoing_infinite(self, b: int, a: int)
        requires
            self.wf(),
            0 <= b < self.n(),
            0 <= a < self.n(),
            forall|t: int| 0 <= t < self.n() ==> !(#[trigger] self.connected(b, t)),
        ensures
            self.dist_spec(b, a) == INF_DIST,
    {
        if self.dist_spec(b, a) < INF_DIST {
            let p = self.lemma_finite_distance_has_path(b, a);
            assert(self.connected(p[0], p[1]));
        }
    }

    /// With no connection stored at all, every station pair reports
    /// "+infinity".
    pub proof fn lemma_unconnected_all_infinite(self, a: int, b: int)
        requires
            self.wf(),
            0 <= a < self.n(),
            0 <= b < self.n(),
            forall|i: int, j: int|
                0 <= i < self.n() && 0 <= j < self.n() ==> !(#[trigger] self.connected(i, j)),
        ensures
            self.dist_spec(a, b) == INF_DIST,
    {
        assert forall|i: int, j: int|
            0 <= i < self.n() && 0 <= j < self.n() implies #[trigger] self.weights()[i][j]
            == INF_DIST by {
            assert(self.weights()[i][j] == self.weight(i, j));
        }
        lemma_fw_all_inf(self.weights(), self.n(), self.n(), a, b);
    }

    /// Every reported distance is a lower bound on the weight of any chain
    /// of direct connections from `a` to `b`.
    pub proof fn lemma_distance_minimal(self, a: int, b: int, p: Seq<int>)
        requires
            self.wf(),
            is_path(p, self.n(), a, b),
        ensures
            self.dist_spec(a, b) <= path_weight(self.weights(), p),
    {
        lemma_fw_le_path(self.weights(), self.n(), self.n(), p);
    }

    /// The initial network: three stations, no connections, no trains.
    pub fn new() -> (m: Metro)
        ensures
            m.wf(),
            m.n() == 3,
            m.stations@[0].kind == 0 && m.stations@[1].kind == 1 && m.stations@[2].kind == 2,
            m.stations@[0].position.x == -30_000 && m.stations@[0].position.y == -20_000,
            m.stations@[1].position.x == 20_000 && m.stations@[1].position.y == -20_000,
            m.stations@[2].position.x == -20_000 && m.stations@[2].position.y == 40_000,
            forall|i: int| 0 <= i < 3 ==> (#[trigger] m.stations@[i]).passengers@.len() == 0,
            forall|i: int| 0 <= i < 3 ==> (#[trigger] m.stations@[i]).intensity == 500,
            forall|i: int, j: int| 0 <= i < 3 && 0 <= j < 3 ==> !m.connected(i, j),
            m.trains@.len() == 0,
    {
        let mut m = Metro {
            stations: Vec::new(),
            connections: Vec::new(),
            trains: Vec::new(),
            distances: Vec::new(),
        };
        m.add_station(Station::new(0, Position { x: -30_000, y: -20_000 }));
        m.add_station(Station::new(1, Position { x: 20_000, y: -20_000 }));
        m.add_station(Station::new(2, Position { x: -20_000, y: 40_000 }));
        m
    }

    /// Appends a station, growing the connection matrix with empty cells and
    /// recomputing distances.
    pub fn add_station(&mut self, station: Station)
        requires
            old(self).wf(),
            wf_station(station),
        ensures
            final(self).wf(),
            final(self).stations@ == old(self).stations@.push(station),
            final(self).n() == old(self).n() + 1,
            final(self).trains@ == old(self).trains@,
            forall|i: int, j: int|
                0 <= i < old(self).n() && 0 <= j < old(self).n() ==> final(self).cell(i, j)
                    == old(self).cell(i, j),
            forall|i: int, j: int|
                0 <= i < final(self).n() && 0 <= j < final(self).n() && (i >= old(self).n() || j
                    >= old(self).n()) ==> (#[trigger] final(self).cell(i, j)).len() == 0,
    {
        self.stations.push(station);
        let n2 = self.stations.len();
        let rows = self.connections.len();
        assert(rows == n2 - 1);
        let ghost old_conn = old(self).connections@;
        for i in 0..rows
            invariant
                rows == old_conn.len(),
                n2 == rows + 1,
                self.connections@.len() == rows,
                forall|i2: int| 0 <= i2 < rows ==> (#[trigger] old_conn[i2])@.len() == rows,
                forall|i2: int|
                    0 <= i2 < i ==> (#[trigger] self.connections@[i2])@.len() == n2,
                forall|i2: int, j2: int|
                    0 <= i2 < i && 0 <= j2 < rows ==> (#[trigger] self.connections@[i2]@[j2])@
                        == old_conn[i2]@[j2]@,
                forall|i2: int|
                    0 <= i2 < i ==> (#[trigger] self.connections@[i2]@[rows as int])@.len() == 0,
                forall|i2: int|
                    i <= i2 < rows ==> #[trigger] self.connections@[i2] == old_conn[i2],
                self.stations@ == old(self).stations@.push(station),
                self.trains == old(self).trains,
        {
            self.connections[i].push(Vec::new());
        }
        let mut row: Vec<Vec<Connection>> = Vec::new();
        for j in 0..n2
            invariant
                row@.len() == j,
                forall|j2: int| 0 <= j2 < j ==> (#[trigger] row@[j2])@.len() == 0,
        {
            row.push(Vec::new());
        }
        self.connections.push(row);
        assert forall|i: int, j: int|
            0 <= i < self.n() && 0 <= j < self.n() && (i >= rows || j >= rows) implies (
        #[trigger] self.cell(i, j)).len() == 0 by {}
        assert forall|i: int, j: int|
            0 <= i < self.n() && 0 <= j < self.n() implies distinct_lines(
            #[trigger] self.cell(i, j)) by {
            if i < rows && j < rows {
                assert(self.cell(i, j) == old(self).cell(i, j));
            }
        }
        assert forall|i: int| 0 <= i < self.n() implies wf_station(
            #[trigger] self.stations@[i]) by {
            if i < rows {
                assert(self.stations@[i] == old(self).stations@[i]);
            }
        }
        assert forall|t: int| 0 <= t < self.trains@.len() implies self.wf_train(
            #[trigger] self.trains@[t]) by {
            assert(old(self).wf_train(old(self).trains@[t]));
        }
        self.calculate_distances();
    }

    /// Recomputes the whole distance matrix from the current connections.
    fn calculate_distances(&mut self)
        requires
            old(self).wf_base(),
        ensures
            final(self).wf(),
            final(self).stations == old(self).stations,
            final(self).connections == old(self).connections,
            final(self).trains == old(self).trains,
    {
        let n = self.stations.len();
        let mut d: Vec<Vec<u64>> = Vec::new();

        // Seed: the direct edge weights, "+infinity" where no direct
        // connection exists (in that direction).
        for i in 0..n
            invariant
                n == self.stations@.len(),
                self.wf_base(),
                d@.len() == i,
                forall|i2: int| 0 <= i2 < i ==> (#[trigger] d@[i2])@.len() == n,
                forall|i2: int, j2: int|
                    0 <= i2 < i && 0 <= j2 < n ==> #[trigger] d@[i2]@[j2] == self.weight(i2, j2),
        {
            let mut row: Vec<u64> = Vec::new();
            for j in 0..n
                invariant
                    n == self.stations@.len(),
                    self.wf_base(),
                    0 <= i < n,
                    row@.len() == j,
                    forall|j2: int| 0 <= j2 < j ==> #[trigger] row@[j2] == self.weight(
                        i as int, j2),
            {
                let wij: u64 = if self.connections[i][j].len() > 0 {
                    proof {
                        lemma_euclid_weight_bound(
                            self.stations@[i as int].position,
                            self.stations@[j as int].position,
                        );
                    }
                    euclid_dist(self.stations[i].position, self.stations[j].position)
                } else {
                    INF_DIST
                };
                row.push(wij);
            }
            d.push(row);
        }

        let ghost w0 = self.weights();
        proof {
            assert(square_matrix(w0, n as int));
            assert forall|i: int, j: int| 0 <= i < n && 0 <= j < n implies #[trigger] d@[i]@[j]
                == fw(w0, 0, i, j) by {
                assert(w0[i][j] == self.weight(i, j));
            }
        }

        // Relax through every pivot in turn.
        for k in 0..n
            invariant
                n == self.stations@.len(),
                square_matrix(w0, n as int),
                w0 == self.weights(),
                self.wf_base(),
                d@.len() == n,
                forall|i2: int| 0 <= i2 < n ==> (#[trigger] d@[i2])@.len() == n,
                forall|i2: int, j2: int|
                    0 <= i2 < n && 0 <= j2 < n ==> #[trigger] d@[i2]@[j2] == fw(
                        w0, k as int, i2, j2),
        {
            for i in 0..n
                invariant
                    n == self.stations@.len(),
                    square_matrix(w0, n as int),
                    w0 == self.weights(),
                    self.wf_base(),
                    0 <= k < n,
                    d@.len() == n,
                    forall|i2: int| 0 <= i2 < n ==> (#[trigger] d@[i2])@.len() == n,
                    forall|i2: int, j2: int|
                        0 <= i2 < i && 0 <= j2 < n ==> #[trigger] d@[i2]@[j2] == fw(
                            w0, k + 1, i2, j2),
                    forall|i2: int, j2: int|
                        i <= i2 < n && 0 <= j2 < n ==> #[trigger] d@[i2]@[j2] == fw(
                            w0, k as int, i2, j2),
            {
                for j in 0..n
                    invariant
                        n == self.stations@.len(),
                        square_matrix(w0, n as int),
                        w0 == self.weights(),
                        self.wf_base(),
                        0 <= k < n,
                        0 <= i < n,
                        d@.len() == n,
                        forall|i2: int| 0 <= i2 < n ==> (#[trigger] d@[i2])@.len() == n,
                        forall|i2: int, j2: int|
                            0 <= i2 < i && 0 <= j2 < n ==> #[trigger] d@[i2]@[j2] == fw(
                                w0, k + 1, i2, j2),
                        forall|i2: int, j2: int|
                            i < i2 < n && 0 <= j2 < n ==> #[trigger] d@[i2]@[j2] == fw(
                                w0, k as int, i2, j2),
                        forall|j2: int|
                            0 <= j2 < j ==> #[trigger] d@[i as int]@[j2] == fw(
                                w0, k + 1, i as int, j2),
                        forall|j2: int|
                            j <= j2 < n ==> #[trigger] d@[i as int]@[j2] == fw(
                                w0, k as int, i as int, j2),
                {
                    proof {
                        // Reading through the pivot row and column is safe:
                        // those entries are unchanged by this pass.
                        lemma_fw_pivot_stable(w0, k + 1, i as int, j as int);
                        assert(d@[i as int]@[k as int] == fw(w0, k as int, i as int, k as int));
                        assert(d@[k as int]@[j as int] == fw(w0, k as int, k as int, j as int));
                    }
                    let through = dist_add_exec(d[i][k], d[k][j]);
                    if through < d[i][j] {
                        d[i][j] = through;
                    }
                    assert(d@[i as int]@[j as int] == fw(w0, k + 1, i as int, j as int));
                }
            }
        }
        let ghost pre = *self;
        self.distances = d;
        proof {
            assert(self.weights() =~~= w0);
            assert forall|i: int, j: int|
                0 <= i < self.n() && 0 <= j < self.n() implies distinct_lines(
                #[trigger] self.cell(i, j)) by {
                assert(self.cell(i, j) == pre.cell(i, j));
                assert(distinct_lines(pre.cell(i, j)));
            }
            assert forall|i: int, j: int|
                0 <= i < self.n() && 0 <= j < self.n() implies #[trigger] self.distances@[i]@[j]
                == self.dist_spec(i, j) by {
                assert(d@[i]@[j] == fw(w0, n as int, i, j));
            }
        }
    }

    /// The cached shortest-path distance from `a` to `b`; `INF_DIST` when no
    /// path exists.
    pub fn distance(&self, a: StationId, b: StationId) -> (r: u64)
        requires
            self.wf(),
            a < self.n(),
            b < self.n(),
        ensures
            r == self.dist_spec(a as int, b as int),
    {
        self.distances[a][b]
    }

    /// Inserts the directed connection `a -> b` for `line_id` unless that
    /// pair already carries the line; a duplicate insert leaves the network
    /// untouched, so inserting twice equals inserting once.
    pub fn add_connection(&mut self, a: StationId, b: StationId, line_id: LineId)
        requires
            old(self).wf(),
            a < old(self).n(),
            b < old(self).n(),
        ensures
            final(self).wf(),
            final(self).n() == old(self).n(),
            final(self).stations == old(self).stations,
            final(self).trains == old(self).trains,
            old(self).cell_has_line(a as int, b as int, line_id) ==> *final(self) == *old(self),
            !old(self).cell_has_line(a as int, b as int, line_id) ==> final(self).cell(
                a as int, b as int) == old(self).cell(a as int, b as int).push(
                Connection { line_id }),
            forall|i: int, j: int|
                0 <= i < old(self).n() && 0 <= j < old(self).n() && !(i == a && j == b)
                    ==> final(self).cell(i, j) == old(self).cell(i, j),
            forall|i: int, j: int, l: usize|
                0 <= i < old(self).n() && 0 <= j < old(self).n() ==> (#[trigger] final(
                self).cell_has_line(i, j, l) <==> old(self).cell_has_line(i, j, l) || (i == a && j
                    == b && l == line_id)),
    {
        let cell_len = self.connections[a][b].len();
        let mut t: usize = 0;
        while t < cell_len
            invariant
                self == old(self),
                a < self.n(),
                b < self.n(),
                self.wf(),
                cell_len == self.cell(a as int, b as int).len(),
                t <= cell_len,
                forall|t2: int|
                    0 <= t2 < t ==> (#[trigger] self.cell(a as int, b as int)[t2]).line_id
                        != line_id,
            decreases cell_len - t,
        {
            if self.connections[a][b][t].line_id == line_id {
                proof {
                    assert(self.cell(a as int, b as int)[t as int].line_id == line_id);
                }
                return ;
            }
            t += 1;
        }
        self.connections[a][b].push(Connection { line_id });
        assert forall|i: int, j: int, l: usize|
            0 <= i < old(self).n() && 0 <= j < old(self).n() implies (#[trigger] self.cell_has_line(
            i, j, l) <==> old(self).cell_has_line(i, j, l) || (i == a && j == b && l
            == line_id)) by {
            if i == a && j == b {
                let c = self.cell(i, j);
                let oc = old(self).cell(i, j);
                assert(c == oc.push(Connection { line_id }));
                assert(c[c.len() - 1].line_id == line_id);
                if seq_has_line(c, l) && l != line_id {
                    let t2 = choose|t2: int| 0 <= t2 < c.len() && (#[trigger] c[t2]).line_id == l;
                    assert(oc[t2].line_id == l);
                }
                if seq_has_line(oc, l) {
                    let t2 = choose|t2: int| 0 <= t2 < oc.len() && (#[trigger] oc[t2]).line_id
                        == l;
                    assert(c[t2].line_id == l);
                }
            }
        }
        assert forall|i: int, j: int|
            0 <= i < self.n() && 0 <= j < self.n() implies distinct_lines(
            #[trigger] self.cell(i, j)) by {
            let c = self.cell(i, j);
            let oc = old(self).cell(i, j);
            if i == a && j == b {
                assert forall|t1: int, t2: int| 0 <= t1 < t2 < c.len() implies (
                #[trigger] c[t1]).line_id != (#[trigger] c[t2]).line_id by {
                    if t2 == c.len() - 1 {
                        assert(c[t1] == oc[t1]);
                    } else {
                        assert(c[t1] == oc[t1] && c[t2] == oc[t2]);
                    }
                }
            }
        }
        assert forall|t: int| 0 <= t < self.trains@.len() implies self.wf_train(
            #[trigger] self.trains@[t]) by {
            assert(old(self).wf_train(old(self).trains@[t]));
        }
        let ghost mid = *self;
        self.calculate_distances();
        proof {
            assert forall|i: int, j: int|
                0 <= i < old(self).n() && 0 <= j < old(self).n() implies #[trigger] self.cell(
                i, j) == mid.cell(i, j) by {}
            assert forall|i: int, j: int, l: usize|
                0 <= i < old(self).n() && 0 <= j < old(self).n() implies (
            #[trigger] self.cell_has_line(i, j, l) <==> mid.cell_has_line(i, j, l)) by {
                assert(self.cell(i, j) == mid.cell(i, j));
            }
            assert forall|i: int, j: int|
                0 <= i < old(self).n() && 0 <= j < old(self).n() && !(i == a && j == b) implies
                #[trigger] self.cell(i, j) == old(self).cell(i, j) by {
                assert(self.cell(i, j) == mid.cell(i, j));
            }
        }
    }

    /// The set of line ids appearing anywhere in the connection graph,
    /// without duplicates.
    pub fn get_active_lines(&self) -> (r: Vec<LineId>)
        requires
            self.wf(),
        ensures
            distinct_ids(r@),
            forall|l: usize| r@.contains(l) <==> self.line_active(l),
    {
        let n = self.stations.len();
        let mut r: Vec<LineId> = Vec::new();
        for i in 0..n
            invariant
                n == self.stations@.len(),
                self.wf(),
                distinct_ids(r@),
                forall|l: usize|
                    r@.contains(l) <==> exists|i2: int, j2: int|
                        0 <= i2 < i && 0 <= j2 < n && #[trigger] self.cell_has_line(i2, j2, l),
        {
            for j in 0..n
                invariant
                    n == self.stations@.len(),
                    self.wf(),
                    0 <= i < n,
                    distinct_ids(r@),
                    forall|l: usize|
                        r@.contains(l) <==> exists|i2: int, j2: int|
                            (0 <= i2 < i && 0 <= j2 < n || i2 == i && 0 <= j2 < j)
                                && #[trigger] self.cell_has_line(i2, j2, l),
            {
                let cell_len = self.connections[i][j].len();
                for t in 0..cell_len
                    invariant
                        n == self.stations@.len(),
                        self.wf(),
                        0 <= i < n,
                        0 <= j < n,
                        cell_len == self.cell(i as int, j as int).len(),
                        distinct_ids(r@),
                        forall|l: usize|
                            r@.contains(l) <==> (exists|i2: int, j2: int|
                                (0 <= i2 < i && 0 <= j2 < n || i2 == i && 0 <= j2 < j)
                                    && #[trigger] self.cell_has_line(i2, j2, l)) || (exists|t2: int|
                                0 <= t2 < t && (#[trigger] self.cell(i as int, j as int)[t2]).line_id
                                    == l),
                {
                    let l = self.connections[i][j][t].line_id;
                    proof {
                        assert(self.cell(i as int, j as int)[t as int].line_id == l);
                    }
                    let already = contains_id(&r, l);
                    let ghost r_prev = r@;
                    if !already {
                        r.push(l);
                        proof {
                            assert(r@[r@.len() - 1] == l);
                            assert forall|t1: int, t2: int|
                                0 <= t1 < t2 < r@.len() implies r@[t1] != r@[t2] by {
                                if t2 < r@.len() - 1 {
                                    assert(r@[t1] == r_prev[t1] && r@[t2] == r_prev[t2]);
                                } else {
                                    assert(r@[t1] == r_prev[t1]);
                                    assert(!r_prev.contains(l));
                                }
                            }
                        }
                    }
                    proof {
                        assert(r@.contains(l)) by {
                            if already {
                            } else {
                                assert(r@[r@.len() - 1] == l);
                            }
                        }
                        assert forall|l2: usize|
                            r@.contains(l2) implies ((exists|i2: int, j2: int|
                            (0 <= i2 < i && 0 <= j2 < n || i2 == i && 0 <= j2 < j)
                                && #[trigger] self.cell_has_line(i2, j2, l2)) || (exists|t2: int|
                            0 <= t2 < t + 1 && (#[trigger] self.cell(
                                i as int, j as int)[t2]).line_id == l2)) by {
                            if r_prev.contains(l2) {
                                // covered by the invariant before this step
                            } else {
                                let idx = choose|idx: int|
                                    0 <= idx < r@.len() && r@[idx] == l2;
                                assert(idx == r@.len() - 1);
                                assert(l2 == l);
                                assert(self.cell(i as int, j as int)[t as int].line_id == l2);
                            }
                        }
                        assert forall|l2: usize|
                            ((exists|i2: int, j2: int|
                                (0 <= i2 < i && 0 <= j2 < n || i2 == i && 0 <= j2 < j)
                                    && #[trigger] self.cell_has_line(i2, j2, l2)) || (exists|
                                t2: int,
                            |
                                0 <= t2 < t + 1 && (#[trigger] self.cell(
                                    i as int, j as int)[t2]).line_id == l2)) implies r@.contains(
                            l2) by {
                            if exists|t2: int|
                                0 <= t2 < t + 1 && (#[trigger] self.cell(
                                    i as int, j as int)[t2]).line_id == l2 {
                                let t2 = choose|t2: int|
                                    0 <= t2 < t + 1 && (#[trigger] self.cell(
                                        i as int, j as int)[t2]).line_id == l2;
                                if t2 == t {
                                    assert(l2 == l);
                                } else {
                                    assert(r_prev.contains(l2));
                                }
                            } else {
                                assert(r_prev.contains(l2));
                            }
                            if r_prev.contains(l2) {
                                let idx = choose|idx: int|
                                    0 <= idx < r_prev.len() && r_prev[idx] == l2;
                                assert(r@[idx] == l2);
                            }
                        }
                    }
                }
                assert forall|l: usize|
                    r@.contains(l) implies (exists|i2: int, j2: int|
                    (0 <= i2 < i && 0 <= j2 < n || i2 == i && 0 <= j2 < j + 1)
                        && #[trigger] self.cell_has_line(i2, j2, l)) by {
                    if exists|t2: int|
                        0 <= t2 < cell_len && (#[trigger] self.cell(i as int, j as int)[t2]).line_id
                            == l {
                        assert(self.cell_has_line(i as int, j as int, l));
                    }
                }
                assert forall|l: usize|
                    ((exists|i2: int, j2: int|
                        (0 <= i2 < i && 0 <= j2 < n || i2 == i && 0 <= j2 < j + 1)
                            && #[trigger] self.cell_has_line(i2, j2, l))) implies r@.contains(
                l) by {
                    let (i2, j2) = choose|i2: int, j2: int|
                        (0 <= i2 < i && 0 <= j2 < n || i2 == i && 0 <= j2 < j + 1)
                            && #[trigger] self.cell_has_line(i2, j2, l);
                    if i2 == i && j2 == j {
                        let t2 = choose|t2: int|
                            0 <= t2 < self.cell(i2, j2).len() && (#[trigger] self.cell(
                            i2, j2)[t2]).line_id == l;
                        assert(r@.contains(l));
                    }
                }
            }
        }
        r
    }

    /// The lowest line id below `limit` not active in the graph, if any.
    pub fn lowest_inactive_line(&self, limit: usize) -> (r: Option<LineId>)
        requires
            self.wf(),
        ensures
            match r {
                Some(l) => l < limit && !self.line_active(l) && forall|l2: usize|
                    l2 < l ==> self.line_active(l2),
                None => forall|l2: usize| l2 < limit ==> self.line_active(l2),
            },
    {
        let active = self.get_active_lines();
        let mut l: usize = 0;
        while l < limit
            invariant
                forall|l2: usize| l2 < l ==> self.line_active(l2),
                forall|l2: usize| active@.contains(l2) <==> self.line_active(l2),
            decreases limit - l,
        {
            if !contains_id(&active, l) {
                return Some(l);
            }
            l += 1;
        }
        None
    }

    /// Integrates a finalized line path into the graph: one directed
    /// connection per consecutive station pair, distances recomputed.
    pub fn integrate_path(&mut self, line_id: LineId, path: &Vec<StationId>)
        requires
            old(self).wf(),
            forall|t: int| 0 <= t < path@.len() ==> #[trigger] path@[t] < old(self).n(),
        ensures
            final(self).wf(),
            final(self).n() == old(self).n(),
            final(self).stations == old(self).stations,
            final(self).trains == old(self).trains,
            forall|i: int, j: int, l: usize|
                0 <= i < old(self).n() && 0 <= j < old(self).n() ==> (#[trigger] final(
                self).cell_has_line(i, j, l) <==> old(self).cell_has_line(i, j, l) || (l == line_id
                    && exists|t: int|
                    0 <= t < path@.len() - 1 && i == #[trigger] path@[t] && j == path@[t + 1])),
    {
        if path.len() == 0 {
            return ;
        }
        let count = path.len() - 1;
        for t in 0..count
            invariant
                count == path@.len() - 1,
                forall|t2: int| 0 <= t2 < path@.len() ==> #[trigger] path@[t2] < old(self).n(),
                self.wf(),
                self.n() == old(self).n(),
                self.stations == old(self).stations,
                self.trains == old(self).trains,
                forall|i: int, j: int, l: usize|
                    0 <= i < old(self).n() && 0 <= j < old(self).n() ==> (
                    #[trigger] self.cell_has_line(i, j, l) <==> old(self).cell_has_line(i, j, l)
                        || (l == line_id && exists|t2: int|
                        0 <= t2 < t && i == #[trigger] path@[t2] && j == path@[t2 + 1])),
        {
            let ghost prev = *self;
            self.add_connection(path[t], path[t + 1], line_id);
            assert forall|i: int, j: int, l: usize|
                0 <= i < old(self).n() && 0 <= j < old(self).n() implies (
            #[trigger] self.cell_has_line(i, j, l) <==> old(self).cell_has_line(i, j, l) || (l
                == line_id && exists|t2: int|
                0 <= t2 < t + 1 && i == #[trigger] path@[t2] && j == path@[t2 + 1])) by {
                assert(self.cell_has_line(i, j, l) <==> prev.cell_has_line(i, j, l) || (i
                    == path@[t as int] && j == path@[t + 1] && l == line_id));
            }
        }
    }

    /// Appends a station at a uniformly random position inside the spawn
    /// region, with a weighted random kind and a uniform intensity in
    /// 100 ..= 200 thousandths.
    pub fn spawn_random_station(&mut self)
        requires
            old(self).wf(),
        ensures
            final(self).wf(),
            final(self).n() == old(self).n() + 1,
            final(self).trains@ == old(self).trains@,
            forall|i: int|
                0 <= i < old(self).n() ==> #[trigger] final(self).stations@[i] == old(
                self).stations@[i],
            final(self).stations@[old(self).n()].kind < 3,
            100 <= final(self).stations@[old(self).n()].intensity <= 200,
            -WORLD_EXTENT <= final(self).stations@[old(self).n()].position.x <= WORLD_EXTENT,
            -WORLD_EXTENT <= final(self).stations@[old(self).n()].position.y <= WORLD_EXTENT,
            final(self).stations@[old(self).n()].passengers@ == Seq::<Passenger>::empty(),
            forall|i: int, j: int|
                0 <= i < old(self).n() && 0 <= j < old(self).n() ==> final(self).cell(i, j) == old(
                self).cell(i, j),
            forall|i: int, j: int|
                0 <= i < final(self).n() && 0 <= j < final(self).n() && (i >= old(self).n() || j
                    >= old(self).n()) ==> (#[trigger] final(self).cell(i, j)).len() == 0,
    {
        let x_draw = random_below(200_001);
        let y_draw = random_below(200_001);
        let kind_draw = random_below(1000);
        let intensity_draw = random_below(101);
        let station = station_from_draws(x_draw, y_draw, kind_draw, intensity_draw);
        self.add_station(station);
    }

    /// For every station, with probability equal to its intensity, adds one
    /// waiting passenger with a uniformly random target kind: a station of
    /// zero intensity never gains one, a station of full intensity always
    /// does.
    pub fn spawn_random_passengers(&mut self)
        requires
            old(self).wf(),
        ensures
            final(self).wf(),
            final(self).n() == old(self).n(),
            final(self).connections == old(self).connections,
            final(self).distances == old(self).distances,
            final(self).trains == old(self).trains,
            forall|i: int|
                0 <= i < old(self).n() ==> {
                    let s = #[trigger] final(self).stations@[i];
                    let os = old(self).stations@[i];
                    &&& s.kind == os.kind
                    &&& s.position == os.position
                    &&& s.intensity == os.intensity
                    &&& (s.passengers@ == os.passengers@ || (s.passengers@.len()
                        == os.passengers@.len() + 1 && s.passengers@.subrange(
                        0,
                        os.passengers@.len() as int,
                    ) == os.passengers@ && s.passengers@.last().target < 3))
                    &&& (os.intensity == 0 ==> s.passengers@ == os.passengers@)
                    &&& (os.intensity == 1000 ==> s.passengers@.len() == os.passengers@.len()
                        + 1)
                },
    {
        let n = self.stations.len();
        for i in 0..n
            invariant
                n == self.stations@.len(),
                self.wf(),
                self.connections == old(self).connections,
                self.distances == old(self).distances,
                self.trains == old(self).trains,
                forall|i2: int|
                    0 <= i2 < i ==> {
                        let s = #[trigger] self.stations@[i2];
                        let os = old(self).stations@[i2];
                        &&& s.kind == os.kind
                        &&& s.position == os.position
                        &&& s.intensity == os.intensity
                        &&& (s.passengers@ == os.passengers@ || (s.passengers@.len()
                            == os.passengers@.len() + 1 && s.passengers@.subrange(
                            0,
                            os.passengers@.len() as int,
                        ) == os.passengers@ && s.passengers@.last().target < 3))
                        &&& (os.intensity == 0 ==> s.passengers@ == os.passengers@)
                        &&& (os.intensity == 1000 ==> s.passengers@.len() == os.passengers@.len()
                            + 1)
                    },
                forall|i2: int|
                    i <= i2 < n ==> #[trigger] self.stations@[i2] == old(self).stations@[i2],
        {
            let ghost pre = *self;
            let draw = random_below(1000);
            if draw < self.stations[i].intensity as u64 {
                let passenger = passenger_from_draw(random_below(3));
                self.stations[i].passengers.push(passenger);
                proof {
                    let s = self.stations@[i as int];
                    let os = pre.stations@[i as int];
                    assert(s.passengers@ == os.passengers@.push(passenger));
                    assert(s.passengers@.subrange(0, os.passengers@.len() as int)
                        =~= os.passengers@);
                }
            }
            proof {
                Metro::lemma_graph_untouched(pre, *self);
                assert forall|t: int| 0 <= t < self.trains@.len() implies self.wf_train(
                    #[trigger] self.trains@[t]) by {
                    assert(pre.wf_train(pre.trains@[t]));
                    assert(self.stations@[self.trains@[t].last_station as int].position
                        == pre.stations@[self.trains@[t].last_station as int].position);
                    assert(self.stations@[self.trains@[t].next_station as int].position
                        == pre.stations@[self.trains@[t].next_station as int].position);
                }
            }
        }
    }

    /// `t` is a neighbor of `s` along line `l`: a direct connection in
    /// either direction ties them.
    pub open spec fn line_neighbor(self, s: int, t: int, l: usize) -> bool {
        0 <= t < self.n() && t != s && (self.cell_has_line(s, t, l) || self.cell_has_line(
            t,
            s,
            l,
        ))
    }

    /// Number of line neighbors of `s` below `upto`.
    pub open spec fn neighbor_count_upto(self, s: int, l: usize, upto: int) -> int
        decreases upto,
    {
        if upto <= 0 {
            0
        } else {
            self.neighbor_count_upto(s, l, upto - 1) + (if self.line_neighbor(s, upto - 1, l) {
                1int
            } else {
                0int
            })
        }
    }

    /// Number of line neighbors of `s` along `l`: one at a terminal, two at
    /// a through station.
    pub open spec fn neighbor_count(self, s: int, l: usize) -> int {
        self.neighbor_count_upto(s, l, self.n())
    }

    /// The first line neighbor of `s` at or after `from`; `n` when none.
    pub open spec fn first_neighbor_from(self, s: int, l: usize, from: int) -> int
        decreases self.n() - from,
    {
        if from < 0 || from >= self.n() {
            self.n()
        } else if self.line_neighbor(s, from, l) {
            from
        } else {
            self.first_neighbor_from(s, l, from + 1)
        }
    }

    /// The station a stopped train at `s` departs toward: the sole neighbor
    /// at a terminal, else the neighbor it did not come from.
    pub open spec fn forward_station(self, s: int, last: usize, l: usize) -> int {
        let nb0 = self.first_neighbor_from(s, l, 0);
        if self.neighbor_count(s, l) == 1 {
            nb0
        } else if nb0 == last {
            self.first_neighbor_from(s, l, nb0 + 1)
        } else {
            nb0
        }
    }

    /// The first station of `kind` at or after `from`; `n` when none.
    pub open spec fn first_station_of_kind_from(self, kind: StationKind, from: int) -> int
        decreases self.n() - from,
    {
        if from < 0 || from >= self.n() {
            self.n()
        } else if self.stations@[from].kind == kind {
            from
        } else {
            self.first_station_of_kind_from(kind, from + 1)
        }
    }

    /// Boarding helps a passenger bound for `target` exactly when the
    /// forward hop strictly shortens the distance to the first station of
    /// that kind.
    pub open spec fn boarding_benefits(self, s: int, fwd: int, target: StationKind) -> bool {
        let dest = self.first_station_of_kind_from(target, 0);
        &&& dest < self.n()
        &&& self.dist_spec(s, dest) > self.dist_spec(fwd, dest)
    }

    /// Index of the first waiting passenger in `q` (at or after `from`)
    /// whom the forward hop helps; `q.len()` when none.
    pub open spec fn first_boarder_from(self, q: Seq<Passenger>, s: int, fwd: int, from: int) -> int
        decreases q.len() - from,
    {
        if from < 0 || from >= q.len() {
            q.len() as int
        } else if self.boarding_benefits(s, fwd, q[from].target) {
            from
        } else {
            self.first_boarder_from(q, s, fwd, from + 1)
        }
    }

    /// Index of the first stopped train at or after `from`; the train count
    /// when none.
    pub open spec fn first_stopped_from(self, from: int) -> int
        decreases self.trains@.len() - from,
    {
        if from < 0 || from >= self.trains@.len() {
            self.trains@.len() as int
        } else if self.trains@[from].stopped {
            from
        } else {
            self.first_stopped_from(from + 1)
        }
    }

    proof fn lemma_first_stopped_is(self, from: int, r: int)
        requires
            0 <= from <= r <= self.trains@.len(),
            forall|t: int| from <= t < r ==> !(#[trigger] self.trains@[t]).stopped,
            r < self.trains@.len() ==> self.trains@[r].stopped,
        ensures
            self.first_stopped_from(from) == r,
        decreases r - from,
    {
        if from < r {
            self.lemma_first_stopped_is(from + 1, r);
        }
    }

    proof fn lemma_first_neighbor_is(self, s: int, l: usize, from: int, r: int)
        requires
            0 <= from <= r <= self.n(),
            forall|t: int| from <= t < r ==> !(#[trigger] self.line_neighbor(s, t, l)),
            r < self.n() ==> self.line_neighbor(s, r, l),
        ensures
            self.first_neighbor_from(s, l, from) == r,
        decreases r - from,
    {
        if from < r {
            assert(!self.line_neighbor(s, from, l));
            self.lemma_first_neighbor_is(s, l, from + 1, r);
        }
    }

    proof fn lemma_first_kind_is(self, kind: StationKind, from: int, r: int)
        requires
            0 <= from <= r <= self.n(),
            forall|t: int| from <= t < r ==> (#[trigger] self.stations@[t]).kind != kind,
            r < self.n() ==> self.stations@[r].kind == kind,
        ensures
            self.first_station_of_kind_from(kind, from) == r,
        decreases r - from,
    {
        if from < r {
            self.lemma_first_kind_is(kind, from + 1, r);
        }
    }

    proof fn lemma_first_boarder_is(self, q: Seq<Passenger>, s: int, fwd: int, from: int, r: int)
        requires
            0 <= from <= r <= q.len(),
            forall|t: int|
                from <= t < r ==> !self.boarding_benefits(s, fwd, (#[trigger] q[t]).target),
            r < q.len() ==> self.boarding_benefits(s, fwd, q[r].target),
        ensures
            self.first_boarder_from(q, s, fwd, from) == r,
        decreases r - from,
    {
        if from < r {
            self.lemma_first_boarder_is(q, s, fwd, from + 1, r);
        }
    }

    /// Whether the cell from `i` to `j` carries line `l` (linear scan).
    fn cell_contains_line(&self, i: usize, j: usize, l: usize) -> (b: bool)
        requires
            self.wf(),
            i < self.n(),
            j < self.n(),
        ensures
            b == self.cell_has_line(i as int, j as int, l),
    {
        let cell_len = self.connections[i][j].len();
        for t in 0..cell_len
            invariant
                self.wf(),
                i < self.n(),
                j < self.n(),
                cell_len == self.cell(i as int, j as int).len(),
                forall|t2: int|
                    0 <= t2 < t ==> (#[trigger] self.cell(i as int, j as int)[t2]).line_id != l,
        {
            if self.connections[i][j][t].line_id == l {
                proof {
                    assert(self.cell(i as int, j as int)[t as int].line_id == l);
                }
                return true;
            }
        }
        false
    }

    /// Whether boarding a passenger bound for `target` at `s` helps when
    /// the train departs toward `fwd`.
    fn boarding_helps(&self, s: usize, fwd: usize, target: StationKind) -> (b: bool)
        requires
            self.wf(),
            s < self.n(),
            fwd < self.n(),
        ensures
            b == self.boarding_benefits(s as int, fwd as int, target),
    {
        let n = self.stations.len();
        let mut dest: usize = 0;
        while dest < n && self.stations[dest].kind != target
            invariant
                n == self.stations@.len(),
                self.wf(),
                dest <= n,
                forall|t2: int|
                    0 <= t2 < dest ==> (#[trigger] self.stations@[t2]).kind != target,
            decreases n - dest,
        {
            dest += 1;
        }
        proof {
            self.lemma_first_kind_is(target, 0, dest as int);
        }
        if dest < n {
            self.distances[s][dest] > self.distances[fwd][dest]
        } else {
            false
        }
    }

    /// Index of the first waiting passenger at `s` whom departing toward
    /// `fwd` helps; the queue length when none qualifies.
    fn find_boarder(&self, s: usize, fwd: usize) -> (r: usize)
        requires
            self.wf(),
            s < self.n(),
            fwd < self.n(),
        ensures
            r as int == self.first_boarder_from(
                self.stations@[s as int].passengers@,
                s as int,
                fwd as int,
                0,
            ),
            r <= self.stations@[s as int].passengers@.len(),
    {
        let ghost q = self.stations@[s as int].passengers@;
        let qlen = self.stations[s].passengers.len();
        let mut pi: usize = 0;
        while pi < qlen
            invariant
                self.wf(),
                s < self.n(),
                fwd < self.n(),
                q == self.stations@[s as int].passengers@,
                qlen == q.len(),
                pi <= qlen,
                forall|t2: int|
                    0 <= t2 < pi ==> !self.boarding_benefits(
                        s as int,
                        fwd as int,
                        (#[trigger] q[t2]).target,
                    ),
            decreases qlen - pi,
        {
            let target = self.stations[s].passengers[pi].target;
            if self.boarding_helps(s, fwd, target) {
                proof {
                    self.lemma_first_boarder_is(q, s as int, fwd as int, 0, pi as int);
                }
                return pi;
            }
            pi += 1;
        }
        proof {
            self.lemma_first_boarder_is(q, s as int, fwd as int, 0, qlen as int);
        }
        qlen
    }

    /// The length of the edge the train is riding.
    pub open spec fn edge_length(self, tr: Train) -> u64 {
        euclid_weight(
            self.stations@[tr.last_station as int].position,
            self.stations@[tr.next_station as int].position,
        ) as u64
    }

    /// What one movement tick does to a single train: a running train
    /// advances by `delta` and stops, clamped, once it reaches the end of
    /// its edge; a stopped train is untouched.
    pub open spec fn moved_train(self, tr: Train, delta: u64) -> Train {
        if tr.stopped {
            tr
        } else {
            let total = self.edge_length(tr);
            let trav = dist_add(tr.traveled_distance, delta);
            if trav >= total {
                (Train { traveled_distance: total, stopped: true, ..tr })
            } else {
                (Train { traveled_distance: trav, ..tr })
            }
        }
    }

    /// Handles the first stopped train, if any: boards the first waiting
    /// passenger at its station whom the next hop provably brings closer
    /// to a station of its target kind; when no passenger benefits, the
    /// train departs empty-handed toward its forward neighbor. Meant to be
    /// invoked repeatedly on a timer, so boarding is paced to one passenger
    /// per invocation.
    pub fn onboard_passengers(&mut self)
        requires
            old(self).wf(),
            ({
                let ti = old(self).first_stopped_from(0);
                ti < old(self).trains@.len() ==> {
                    let tr = old(self).trains@[ti];
                    1 <= old(self).neighbor_count(tr.next_station as int, tr.line_id) <= 2
                }
            }),
        ensures
            final(self).wf(),
            final(self).n() == old(self).n(),
            final(self).connections == old(self).connections,
            final(self).distances == old(self).distances,
            final(self).trains@.len() == old(self).trains@.len(),
            ({
                let ti = old(self).first_stopped_from(0);
                ti == old(self).trains@.len() ==> *final(self) == *old(self)
            }),
            ({
                let ti = old(self).first_stopped_from(0);
                ti < old(self).trains@.len() ==> {
                    let tr = old(self).trains@[ti];
                    let s = tr.next_station as int;
                    let fwd = old(self).forward_station(s, tr.last_station, tr.line_id);
                    let q = old(self).stations@[s].passengers@;
                    let bi = old(self).first_boarder_from(q, s, fwd, 0);
                    let tr2 = final(self).trains@[ti];
                    &&& forall|t2: int|
                        0 <= t2 < old(self).trains@.len() && t2 != ti ==> #[trigger] final(
                            self).trains@[t2] == old(self).trains@[t2]
                    &&& forall|i: int|
                        0 <= i < old(self).n() && i != s ==> #[trigger] final(self).stations@[i]
                            == old(self).stations@[i]
                    &&& final(self).stations@[s].kind == old(self).stations@[s].kind
                    &&& final(self).stations@[s].position == old(self).stations@[s].position
                    &&& final(self).stations@[s].intensity == old(self).stations@[s].intensity
                    &&& tr2.locomotive_count == tr.locomotive_count
                    &&& tr2.line_id == tr.line_id
                    &&& (bi < q.len() ==> {
                        &&& final(self).stations@[s].passengers@ == q.remove(bi)
                        &&& tr2.passengers@ == tr.passengers@.push(q[bi])
                        &&& tr2.last_station == tr.last_station
                        &&& tr2.next_station == tr.next_station
                        &&& tr2.stopped
                        &&& tr2.traveled_distance == tr.traveled_distance
                    })
                    &&& (bi >= q.len() ==> {
                        &&& final(self).stations@[s] == old(self).stations@[s]
                        &&& tr2.passengers@ == tr.passengers@
                        &&& !tr2.stopped
                        &&& tr2.last_station == tr.next_station
                        &&& tr2.next_station == fwd
                        &&& tr2.traveled_distance == 0
                    })
                }
            }),
    {
        let count = self.trains.len();
        let mut ti: usize = 0;
        while ti < count && !self.trains[ti].stopped
            invariant
                count == self.trains@.len(),
                ti <= count,
                forall|t2: int| 0 <= t2 < ti ==> !(#[trigger] self.trains@[t2]).stopped,
            decreases count - ti,
        {
            ti += 1;
        }
        proof {
            self.lemma_first_stopped_is(0, ti as int);
        }
        if ti == count {
            return ;
        }

        let s = self.trains[ti].next_station;
        let last = self.trains[ti].last_station;
        let l = self.trains[ti].line_id;
        let n = self.stations.len();

        // Determine the candidate directions along the train's line.
        let mut cnt: usize = 0;
        let mut nb0: usize = n;
        let mut nb1: usize = n;
        for t in 0..n
            invariant
                n == self.stations@.len(),
                self.wf(),
                s < n,
                cnt == self.neighbor_count_upto(s as int, l, t as int),
                cnt <= t,
                cnt == 0 ==> nb0 == n && forall|t2: int|
                    0 <= t2 < t ==> !(#[trigger] self.line_neighbor(s as int, t2, l)),
                cnt >= 1 ==> nb0 < t && self.line_neighbor(s as int, nb0 as int, l) && forall|
                    t2: int,
                |
                    0 <= t2 < nb0 ==> !(#[trigger] self.line_neighbor(s as int, t2, l)),
                cnt == 1 ==> forall|t2: int|
                    nb0 < t2 < t ==> !(#[trigger] self.line_neighbor(s as int, t2, l)),
                cnt >= 2 ==> nb0 < nb1 < t && self.line_neighbor(s as int, nb1 as int, l)
                    && forall|t2: int|
                    nb0 < t2 < nb1 ==> !(#[trigger] self.line_neighbor(s as int, t2, l)),
        {
            let is_nb: bool = if t == s {
                false
            } else if self.cell_contains_line(s, t, l) {
                true
            } else {
                self.cell_contains_line(t, s, l)
            };
            assert(is_nb == self.line_neighbor(s as int, t as int, l));
            if is_nb {
                if cnt == 0 {
                    nb0 = t;
                } else if cnt == 1 {
                    nb1 = t;
                }
                cnt += 1;
            }
        }
        assert(cnt == self.neighbor_count(s as int, l));
        assert(1 <= cnt <= 2);
        proof {
            self.lemma_first_neighbor_is(s as int, l, 0, nb0 as int);
            if cnt == 2 {
                self.lemma_first_neighbor_is(s as int, l, nb0 as int + 1, nb1 as int);
            }
        }
        let fwd: usize = if cnt == 1 {
            nb0
        } else if nb0 == last {
            nb1
        } else {
            nb0
        };
        assert(fwd as int == self.forward_station(s as int, last, l));
        assert(fwd < n);

        let bi = self.find_boarder(s, fwd);
        let ghost pre = *self;
        if bi < self.stations[s].passengers.len() {
            let p = self.stations[s].passengers.remove(bi);
            self.trains[ti].passengers.push(p);
        } else {
            self.trains[ti].stopped = false;
            self.trains[ti].last_station = s;
            self.trains[ti].next_station = fwd;
            self.trains[ti].traveled_distance = 0;
        }
        proof {
            Metro::lemma_graph_untouched(pre, *self);
            assert forall|t2: int| 0 <= t2 < self.trains@.len() implies self.wf_train(
                #[trigger] self.trains@[t2]) by {
                assert(pre.wf_train(pre.trains@[t2]));
                if t2 != ti {
                    assert(self.trains@[t2] == pre.trains@[t2]);
                }
                assert(self.stations@[self.trains@[t2].last_station as int].position
                    == pre.stations@[self.trains@[t2].last_station as int].position);
                assert(self.stations@[self.trains@[t2].next_station as int].position
                    == pre.stations@[self.trains@[t2].next_station as int].position);
                if t2 == ti && !self.trains@[t2].stopped {
                    lemma_euclid_weight_bound(
                        self.stations@[self.trains@[t2].last_station as int].position,
                        self.stations@[self.trains@[t2].next_station as int].position,
                    );
                }
            }
        }
    }

    /// Advances every running train by `delta_distance`, stopping those
    /// that reach the end of their edge.
    pub fn move_trains(&mut self, delta_distance: u64)
        requires
            old(self).wf(),
        ensures
            final(self).wf(),
            final(self).stations == old(self).stations,
            final(self).connections == old(self).connections,
            final(self).distances == old(self).distances,
            final(self).trains@.len() == old(self).trains@.len(),
            forall|t: int|
                0 <= t < old(self).trains@.len() ==> final(self).trains@[t] == old(
                self).moved_train(#[trigger] old(self).trains@[t], delta_distance),
    {
        let count = self.trains.len();
        for t in 0..count
            invariant
                count == self.trains@.len(),
                self.wf(),
                self.stations == old(self).stations,
                self.connections == old(self).connections,
                self.distances == old(self).distances,
                forall|t2: int|
                    0 <= t2 < t ==> self.trains@[t2] == old(self).moved_train(
                        #[trigger] old(self).trains@[t2], delta_distance),
                forall|t2: int|
                    t <= t2 < count ==> #[trigger] self.trains@[t2] == old(self).trains@[t2],
        {
            let ghost pre = *self;
            if !self.trains[t].stopped {
                let last = self.trains[t].last_station;
                let next = self.trains[t].next_station;
                let total = euclid_dist(self.stations[last].position, self.stations[next].position);
                let trav = dist_add_exec(self.trains[t].traveled_distance, delta_distance);
                if trav >= total {
                    self.trains[t].traveled_distance = total;
                    self.trains[t].stopped = true;
                } else {
                    self.trains[t].traveled_distance = trav;
                }
                assert(self.trains@[t as int] == old(self).moved_train(
                    old(self).trains@[t as int], delta_distance));
            }
            proof {
                Metro::lemma_graph_untouched(pre, *self);
            }
        }
    }
}

/// Half-width of the square region random stations spawn in, in world
/// units.
pub const WORLD_EXTENT: i64 = 100_000;

/// The station kind produced by a uniform draw in thousandths: below 200
/// the first kind, below 500 the second, otherwise the third.
pub open spec fn kind_from_draw(d: u64) -> StationKind {
    if d < 200 {
        0
    } else if d < 500 {
        1
    } else {
        2
    }
}

/// The passenger target kind produced by a uniform draw below 3.
pub open spec fn target_from_draw(d: u64) -> StationKind {
    if d == 0 {
        2
    } else if d == 1 {
        1
    } else {
        0
    }
}

/// Builds the station determined by four uniform draws: position uniform
/// over the spawn region, kind weighted by `kind_from_draw`, intensity
/// uniform in 100 ..= 200 thousandths.
pub fn station_from_draws(x_draw: u64, y_draw: u64, kind_draw: u64, intensity_draw: u64) -> (s:
    Station)
    requires
        x_draw <= 2 * WORLD_EXTENT,
        y_draw <= 2 * WORLD_EXTENT,
        intensity_draw <= 100,
    ensures
        s.kind == kind_from_draw(kind_draw),
        s.position.x == x_draw - WORLD_EXTENT,
        s.position.y == y_draw - WORLD_EXTENT,
        s.intensity == 100 + intensity_draw,
        s.passengers@ == Seq::<Passenger>::empty(),
        wf_station(s),
{
    let kind: StationKind = if kind_draw < 200 {
        0
    } else if kind_draw < 500 {
        1
    } else {
        2
    };
    let position = Position {
        x: x_draw as i64 - WORLD_EXTENT,
        y: y_draw as i64 - WORLD_EXTENT,
    };
    let mut s = Station::new(kind, position);
    s.intensity = 100 + intensity_draw as u32;
    s
}

/// Builds the passenger determined by a uniform draw below 3.
pub fn passenger_from_draw(target_draw: u64) -> (p: Passenger)
    ensures
        p.target == target_from_draw(target_draw),
{
    let target: StationKind = if target_draw == 0 {
        2
    } else if target_draw == 1 {
        1
    } else {
        0
    };
    Passenger { target }
}

/// Whether `v` contains the id `x` (linear scan).
pub fn contains_id(v: &Vec<usize>, x: usize) -> (b: bool)
    ensures
        b == v@.contains(x),
{
    for t in 0..v.len()
        invariant
            forall|t2: int| 0 <= t2 < t ==> v@[t2] != x,
    {
        if v[t] == x {
            return true;
        }
    }
    false
}

/// Pool of line/train resources available to the player.
pub struct MetroResources {
    pub total_trains: usize,
    pub available_lines: usize,
    pub max_lines: usize,
}

impl MetroResources {
    /// The default resource pool.
    pub fn new() -> (r: MetroResources)
        ensures
            r.total_trains == 3,
            r.available_lines == 3,
            r.max_lines == 9,
    {
        MetroResources { total_trains: 3, available_lines: 3, max_lines: 9 }
    }
}

} // verus!
