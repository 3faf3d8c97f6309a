use vstd::prelude::*;

use crate::geom::point::Point;
use crate::model::board::Board;
use crate::model::items::{copy_layers, LayerId, NetId, Pad, PadShape};

verus! {

/// One endpoint of a connection: a pad's position plus the copper layers
/// it is present on.
#[derive(Debug, PartialEq, Eq)]
pub struct Endpoint {
    pub position: Point,
    pub layers: Vec<LayerId>,
}

impl View for Endpoint {
    type V = (Point, Seq<LayerId>);

    open spec fn view(&self) -> (Point, Seq<LayerId>) {
        (self.position, self.layers@)
    }
}

impl Endpoint {
    /// A copy of this endpoint.
    pub fn duplicate(&self) -> (e: Endpoint)
        ensures
            e@ == self@,
    {
        Endpoint { position: self.position, layers: copy_layers(&self.layers) }
    }
}

/// A two-pin connection that still needs a route.
#[derive(Debug, PartialEq, Eq)]
pub struct Connection {
    pub net: NetId,
    pub from: Endpoint,
    pub to: Endpoint,
}

impl View for Connection {
    type V = (NetId, (Point, Seq<LayerId>), (Point, Seq<LayerId>));

    open spec fn view(&self) -> Self::V {
        (self.net, self.from@, self.to@)
    }
}

/// Result of scanning a board for unrouted connections.
#[derive(Debug)]
pub struct ConnectionReport {
    /// Two-pin nets, ready to route as they are.
    pub connections: Vec<Connection>,
    /// Nets with three or more pads and no existing geometry, as raw
    /// endpoint groups for the caller to decompose.
    pub multi_pin_nets: Vec<(NetId, Vec<Endpoint>)>,
    /// Notes on anything the scan could not classify (currently none).
    pub skipped: Vec<String>,
}

/// The endpoint a pad contributes: its circle's centre and its layers.
pub open spec fn pad_endpoint(p: Pad) -> (Point, Seq<LayerId>) {
    (p.circle().center, p.layers@)
}

/// The distinct nets of the first `k` pads, in order of first appearance.
pub open spec fn pad_nets(pads: Seq<Pad>, k: int) -> Seq<NetId>
    decreases k,
{
    if k <= 0 {
        Seq::empty()
    } else {
        let s = pad_nets(pads, k - 1);
        if s.contains(pads[k - 1].net) {
            s
        } else {
            s.push(pads[k - 1].net)
        }
    }
}

/// The endpoints of the pads on `net` among the first `k` pads, in order.
pub open spec fn net_endpoints(pads: Seq<Pad>, net: NetId, k: int) -> Seq<(Point, Seq<LayerId>)>
    decreases k,
{
    if k <= 0 {
        Seq::empty()
    } else {
        let s = net_endpoints(pads, net, k - 1);
        if pads[k - 1].net == net {
            s.push(pad_endpoint(pads[k - 1]))
        } else {
            s
        }
    }
}

/// A net already carries a track or a via.
pub open spec fn has_geometry(b: &Board, net: NetId) -> bool {
    ||| exists|i: int| 0 <= i < b.tracks@.len() && (#[trigger] b.tracks@[i]).net == net
    ||| exists|i: int| 0 <= i < b.vias@.len() && (#[trigger] b.vias@[i]).net == net
}

pub open spec fn all_endpoints(b: &Board, net: NetId) -> Seq<(Point, Seq<LayerId>)> {
    net_endpoints(b.pads@, net, b.pads@.len() as int)
}

/// The two-pin connections among the first `m` distinct pad nets: nets
/// with no geometry and exactly two pads.
pub open spec fn connections_upto(b: &Board, m: int) -> Seq<
    (NetId, (Point, Seq<LayerId>), (Point, Seq<LayerId>)),
>
    decreases m,
{
    if m <= 0 {
        Seq::empty()
    } else {
        let nets = pad_nets(b.pads@, b.pads@.len() as int);
        let net = nets[m - 1];
        let eps = all_endpoints(b, net);
        let prev = connections_upto(b, m - 1);
        if !has_geometry(b, net) && eps.len() == 2 {
            prev.push((net, eps[0], eps[1]))
        } else {
            prev
        }
    }
}

/// The multi-pin nets among the first `m` distinct pad nets: nets with no
/// geometry and three or more pads.
pub open spec fn multi_pin_upto(b: &Board, m: int) -> Seq<(NetId, Seq<(Point, Seq<LayerId>)>)>
    decreases m,
{
    if m <= 0 {
        Seq::empty()
    } else {
        let nets = pad_nets(b.pads@, b.pads@.len() as int);
        let net = nets[m - 1];
        let eps = all_endpoints(b, net);
        let prev = multi_pin_upto(b, m - 1);
        if !has_geometry(b, net) && eps.len() >= 3 {
            prev.push((net, eps))
        } else {
            prev
        }
    }
}

pub open spec fn spec_connections(b: &Board) -> Seq<
    (NetId, (Point, Seq<LayerId>), (Point, Seq<LayerId>)),
> {
    connections_upto(b, pad_nets(b.pads@, b.pads@.len() as int).len() as int)
}

pub open spec fn spec_multi_pin_nets(b: &Board) -> Seq<(NetId, Seq<(Point, Seq<LayerId>)>)> {
    multi_pin_upto(b, pad_nets(b.pads@, b.pads@.len() as int).len() as int)
}

/// `e` is the endpoint of one of the first `k` pads, a pad on `net`.
pub open spec fn pad_on_net(pads: Seq<Pad>, net: NetId, k: int, e: (Point, Seq<LayerId>)) -> bool {
    exists|j: int| 0 <= j < k && (#[trigger] pads[j]).net == net && e == (pads[j].circle().center, pads[j].layers@)
}

proof fn lemma_net_endpoints_from_pads(pads: Seq<Pad>, net: NetId, k: int)
    requires
        0 <= k <= pads.len(),
    ensures
        forall|q: int| 0 <= q < net_endpoints(pads, net, k).len() ==> pad_on_net(pads, net, k, #[trigger] net_endpoints(pads, net, k)[q]),
    decreases k,
{
    if k > 0 {
        lemma_net_endpoints_from_pads(pads, net, k - 1);
        let prev = net_endpoints(pads, net, k - 1);
        let cur = net_endpoints(pads, net, k);
        assert forall|q: int| 0 <= q < cur.len() implies pad_on_net(pads, net, k, #[trigger] cur[q]) by {
            if q < prev.len() {
                assert(cur[q] == prev[q]);
                assert(pad_on_net(pads, net, k - 1, prev[q]));
                let j = choose|j: int|
                    0 <= j < k - 1 && (#[trigger] pads[j]).net == net && prev[q] == (pads[j].circle().center, pads[j].layers@);
                assert(0 <= j < k && pads[j].net == net && cur[q] == (pads[j].circle().center, pads[j].layers@));
            } else {
                assert(cur[q] == pad_endpoint(pads[k - 1]));
                assert(pads[k - 1].net == net);
                assert(0 <= k - 1 < k && pads[k - 1].net == net && cur[q] == (pads[k - 1].circle().center, pads[k - 1].layers@));
            }
        }
    }
}

proof fn lemma_scan_endpoints(b: &Board, m: int)
    requires
        0 <= m <= pad_nets(b.pads@, b.pads@.len() as int).len(),
    ensures
        forall|i: int|
            0 <= i < connections_upto(b, m).len() ==> {
                let c = #[trigger] connections_upto(b, m)[i];
                &&& all_endpoints(b, c.0).len() == 2
                &&& c.1 == all_endpoints(b, c.0)[0]
                &&& c.2 == all_endpoints(b, c.0)[1]
            },
        forall|i: int|
            0 <= i < multi_pin_upto(b, m).len() ==> (#[trigger] multi_pin_upto(b, m)[i]).1 == all_endpoints(
                b,
                multi_pin_upto(b, m)[i].0,
            ),
    decreases m,
{
    if m > 0 {
        lemma_scan_endpoints(b, m - 1);
        let pc = connections_upto(b, m - 1);
        let pm = multi_pin_upto(b, m - 1);
        assert forall|i: int| 0 <= i < connections_upto(b, m).len() implies {
            let c = #[trigger] connections_upto(b, m)[i];
            &&& all_endpoints(b, c.0).len() == 2
            &&& c.1 == all_endpoints(b, c.0)[0]
            &&& c.2 == all_endpoints(b, c.0)[1]
        } by {
            if i < pc.len() {
                assert(connections_upto(b, m)[i] == pc[i]);
            }
        }
        assert forall|i: int| 0 <= i < multi_pin_upto(b, m).len() implies (#[trigger] multi_pin_upto(b, m)[i]).1 == all_endpoints(
            b,
            multi_pin_upto(b, m)[i].0,
        ) by {
            if i < pm.len() {
                assert(multi_pin_upto(b, m)[i] == pm[i]);
            }
        }
    }
}

/// Every endpoint the scan reports is one of the net's pads as it is: its
/// circle's centre and exactly the pad's own layer list (all layers of a
/// through-hole pad), for two-pin connections and multi-pin groups alike
/// (`pad_on_net`).
pub proof fn lemma_endpoints_are_pads(b: &Board)
    ensures
        forall|i: int|
            0 <= i < spec_connections(b).len() ==> {
                let c = #[trigger] spec_connections(b)[i];
                &&& exists|j: int|
                    0 <= j < b.pads@.len() && (#[trigger] b.pads@[j]).net == c.0 && c.1 == (
                        b.pads@[j].circle().center,
                        b.pads@[j].layers@,
                    )
                &&& exists|j: int|
                    0 <= j < b.pads@.len() && (#[trigger] b.pads@[j]).net == c.0 && c.2 == (
                        b.pads@[j].circle().center,
                        b.pads@[j].layers@,
                    )
            },
        forall|i: int, q: int|
            0 <= i < spec_multi_pin_nets(b).len() && 0 <= q < spec_multi_pin_nets(b)[i].1.len() ==> pad_on_net(
                b.pads@,
                spec_multi_pin_nets(b)[i].0,
                b.pads@.len() as int,
                #[trigger] spec_multi_pin_nets(b)[i].1[q],
            ),
{
    let m = pad_nets(b.pads@, b.pads@.len() as int).len() as int;
    lemma_scan_endpoints(b, m);
    assert forall|i: int| 0 <= i < spec_connections(b).len() implies {
        let c = #[trigger] spec_connections(b)[i];
        &&& exists|j: int|
            0 <= j < b.pads@.len() && (#[trigger] b.pads@[j]).net == c.0 && c.1 == (b.pads@[j].circle().center, b.pads@[j].layers@)
        &&& exists|j: int|
            0 <= j < b.pads@.len() && (#[trigger] b.pads@[j]).net == c.0 && c.2 == (b.pads@[j].circle().center, b.pads@[j].layers@)
    } by {
        let c = spec_connections(b)[i];
        lemma_net_endpoints_from_pads(b.pads@, c.0, b.pads@.len() as int);
        let e = net_endpoints(b.pads@, c.0, b.pads@.len() as int);
        assert(e.len() == 2 && c.1 == e[0] && c.2 == e[1]);
        assert(pad_on_net(b.pads@, c.0, b.pads@.len() as int, e[0]));
        assert(pad_on_net(b.pads@, c.0, b.pads@.len() as int, e[1]));
    }
    assert forall|i: int, q: int|
        0 <= i < spec_multi_pin_nets(b).len() && 0 <= q < spec_multi_pin_nets(b)[i].1.len() implies pad_on_net(
            b.pads@,
            spec_multi_pin_nets(b)[i].0,
            b.pads@.len() as int,
            #[trigger] spec_multi_pin_nets(b)[i].1[q],
        ) by {
        let net = spec_multi_pin_nets(b)[i].0;
        lemma_net_endpoints_from_pads(b.pads@, net, b.pads@.len() as int);
        assert(spec_multi_pin_nets(b)[i].1 == all_endpoints(b, net));
        let x = net_endpoints(b.pads@, net, b.pads@.len() as int)[q];
        assert(spec_multi_pin_nets(b)[i].1[q] == x);
        assert(pad_on_net(b.pads@, net, b.pads@.len() as int, x));
    }
}

/// The nets the scan hands out for routing, in order: the two-pin nets,
/// then the multi-pin nets.
pub open spec fn attempted_nets(b: &Board) -> Seq<NetId> {
    spec_connections(b).map_values(|c: (NetId, (Point, Seq<LayerId>), (Point, Seq<LayerId>))| c.0)
        + spec_multi_pin_nets(b).map_values(|m: (NetId, Seq<(Point, Seq<LayerId>)>)| m.0)
}

proof fn lemma_pad_nets_distinct(pads: Seq<Pad>, k: int)
    ensures
        forall|a: int, c: int| 0 <= a < c < pad_nets(pads, k).len() ==> pad_nets(pads, k)[a] != pad_nets(pads, k)[c],
    decreases k,
{
    if k > 0 {
        lemma_pad_nets_distinct(pads, k - 1);
        let s = pad_nets(pads, k - 1);
        let t = pad_nets(pads, k);
        if !s.contains(pads[k - 1].net) {
            assert forall|a: int, c: int| 0 <= a < c < t.len() implies t[a] != t[c] by {
                if c == s.len() {
                    assert(t[a] == s[a]);
                    assert(s.contains(s[a]));
                }
            }
        }
    }
}

proof fn lemma_connections_upto_nets(b: &Board, m: int)
    requires
        0 <= m <= pad_nets(b.pads@, b.pads@.len() as int).len(),
    ensures
        forall|i: int| #![trigger connections_upto(b, m)[i]]
            0 <= i < connections_upto(b, m).len() ==> {
                &&& exists|x: int| 0 <= x < m && pad_nets(b.pads@, b.pads@.len() as int)[x] == connections_upto(b, m)[i].0
                &&& all_endpoints(b, connections_upto(b, m)[i].0).len() == 2
            },
        forall|i: int, j: int|
            0 <= i < j < connections_upto(b, m).len() ==> connections_upto(b, m)[i].0 != connections_upto(b, m)[j].0,
    decreases m,
{
    if m > 0 {
        lemma_connections_upto_nets(b, m - 1);
        lemma_pad_nets_distinct(b.pads@, b.pads@.len() as int);
        let nets = pad_nets(b.pads@, b.pads@.len() as int);
        let prev = connections_upto(b, m - 1);
        let cur = connections_upto(b, m);
        assert forall|i: int| #![trigger cur[i]] 0 <= i < cur.len() implies {
            &&& exists|x: int| 0 <= x < m && nets[x] == cur[i].0
            &&& all_endpoints(b, cur[i].0).len() == 2
        } by {
            if i < prev.len() {
                assert(cur[i] == prev[i]);
                let x = choose|x: int| 0 <= x < m - 1 && nets[x] == prev[i].0;
                assert(0 <= x < m && nets[x] == cur[i].0);
            } else {
                assert(nets[m - 1] == cur[i].0);
            }
        }
        assert forall|i: int, j: int| 0 <= i < j < cur.len() implies cur[i].0 != cur[j].0 by {
            if j < prev.len() {
                assert(cur[i] == prev[i] && cur[j] == prev[j]);
            } else {
                assert(cur[i] == prev[i]);
                let x = choose|x: int| 0 <= x < m - 1 && nets[x] == prev[i].0;
                assert(nets[x] != nets[m - 1]);
            }
        }
    }
}

proof fn lemma_multi_pin_upto_nets(b: &Board, m: int)
    requires
        0 <= m <= pad_nets(b.pads@, b.pads@.len() as int).len(),
    ensures
        forall|i: int| #![trigger multi_pin_upto(b, m)[i]]
            0 <= i < multi_pin_upto(b, m).len() ==> {
                &&& exists|x: int| 0 <= x < m && pad_nets(b.pads@, b.pads@.len() as int)[x] == multi_pin_upto(b, m)[i].0
                &&& all_endpoints(b, multi_pin_upto(b, m)[i].0).len() >= 3
            },
        forall|i: int, j: int|
            0 <= i < j < multi_pin_upto(b, m).len() ==> multi_pin_upto(b, m)[i].0 != multi_pin_upto(b, m)[j].0,
    decreases m,
{
    if m > 0 {
        lemma_multi_pin_upto_nets(b, m - 1);
        lemma_pad_nets_distinct(b.pads@, b.pads@.len() as int);
        let nets = pad_nets(b.pads@, b.pads@.len() as int);
        let prev = multi_pin_upto(b, m - 1);
        let cur = multi_pin_upto(b, m);
        assert forall|i: int| #![trigger cur[i]] 0 <= i < cur.len() implies {
            &&& exists|x: int| 0 <= x < m && nets[x] == cur[i].0
            &&& all_endpoints(b, cur[i].0).len() >= 3
        } by {
            if i < prev.len() {
                assert(cur[i] == prev[i]);
                let x = choose|x: int| 0 <= x < m - 1 && nets[x] == prev[i].0;
                assert(0 <= x < m && nets[x] == cur[i].0);
            } else {
                assert(nets[m - 1] == cur[i].0);
            }
        }
        assert forall|i: int, j: int| 0 <= i < j < cur.len() implies cur[i].0 != cur[j].0 by {
            if j < prev.len() {
                assert(cur[i] == prev[i] && cur[j] == prev[j]);
            } else {
                assert(cur[i] == prev[i]);
                let x = choose|x: int| 0 <= x < m - 1 && nets[x] == prev[i].0;
                assert(nets[x] != nets[m - 1]);
            }
        }
    }
}

/// No net is handed out for routing twice: the scan's nets are distinct.
pub proof fn lemma_attempted_nets_distinct(b: &Board)
    ensures
        forall|i: int, j: int|
            0 <= i < j < attempted_nets(b).len() ==> attempted_nets(b)[i] != attempted_nets(b)[j],
{
    let m = pad_nets(b.pads@, b.pads@.len() as int).len() as int;
    lemma_connections_upto_nets(b, m);
    lemma_multi_pin_upto_nets(b, m);
    let cs = spec_connections(b);
    let ms = spec_multi_pin_nets(b);
    let a = attempted_nets(b);
    let d = cs.len() as int;
    assert forall|i: int, j: int| 0 <= i < j < a.len() implies a[i] != a[j] by {
        if j < d {
            assert(a[i] == cs[i].0 && a[j] == cs[j].0);
        } else if i >= d {
            assert(a[i] == ms[i - d].0 && a[j] == ms[j - d].0);
        } else {
            assert(a[i] == cs[i].0 && a[j] == ms[j - d].0);
            assert(all_endpoints(b, cs[i].0).len() == 2);
            assert(all_endpoints(b, ms[j - d].0).len() >= 3);
        }
    }
}

pub open spec fn endpoints_view(v: Seq<Endpoint>) -> Seq<(Point, Seq<LayerId>)> {
    v.map_values(|e: Endpoint| e@)
}

fn pad_to_endpoint(p: &Pad) -> (e: Endpoint)
    ensures
        e@ == pad_endpoint(*p),
{
    let PadShape::Circle(circle) = p.shape;
    Endpoint { position: circle.center, layers: copy_layers(&p.layers) }
}

impl Board {
    /// True iff some track or via is on `net`.
    fn net_has_geometry(&self, net: NetId) -> (r: bool)
        ensures
            r == has_geometry(self, net),
    {
        let mut i: usize = 0;
        while i < self.tracks.len()
            invariant
                0 <= i <= self.tracks@.len(),
                forall|j: int| 0 <= j < i ==> (#[trigger] self.tracks@[j]).net != net,
            decreases self.tracks@.len() - i,
        {
            if self.tracks[i].net == net {
                return true;
            }
            i += 1;
        }
        let mut k: usize = 0;
        while k < self.vias.len()
            invariant
                0 <= k <= self.vias@.len(),
                forall|j: int| 0 <= j < self.tracks@.len() ==> (#[trigger] self.tracks@[j]).net != net,
                forall|j: int| 0 <= j < k ==> (#[trigger] self.vias@[j]).net != net,
            decreases self.vias@.len() - k,
        {
            if self.vias[k].net == net {
                return true;
            }
            k += 1;
        }
        false
    }

    /// The distinct nets of the pads, in order of first appearance.
    fn distinct_pad_nets(&self) -> (r: Vec<NetId>)
        ensures
            r@ == pad_nets(self.pads@, self.pads@.len() as int),
    {
        let mut nets: Vec<NetId> = Vec::new();
        let mut i: usize = 0;
        while i < self.pads.len()
            invariant
                0 <= i <= self.pads@.len(),
                nets@ == pad_nets(self.pads@, i as int),
            decreases self.pads@.len() - i,
        {
            let net = self.pads[i].net;
            let mut found = false;
            let mut k: usize = 0;
            while k < nets.len()
                invariant
                    0 <= k <= nets@.len(),
                    found == exists|j: int| 0 <= j < k && nets@[j] == net,
                decreases nets@.len() - k,
            {
                if nets[k] == net {
                    found = true;
                }
                k += 1;
            }
            if !found {
                nets.push(net);
            }
            i += 1;
        }
        nets
    }

    /// The endpoints of every pad on `net`, in pad order.
    fn endpoints_of(&self, net: NetId) -> (r: Vec<Endpoint>)
        ensures
            endpoints_view(r@) == all_endpoints(self, net),
    {
        let mut eps: Vec<Endpoint> = Vec::new();
        let mut i: usize = 0;
        while i < self.pads.len()
            invariant
                0 <= i <= self.pads@.len(),
                endpoints_view(eps@) == net_endpoints(self.pads@, net, i as int),
            decreases self.pads@.len() - i,
        {
            if self.pads[i].net == net {
                let e = pad_to_endpoint(&self.pads[i]);
                proof {
                    assert(endpoints_view(eps@.push(e)) =~= endpoints_view(eps@).push(e@));
                }
                eps.push(e);
            }
            i += 1;
        }
        eps
    }

    /// Finds nets that need routing: two or more pads and no existing track
    /// or via on the net. Two-pin nets come back as connections; nets with
    /// three or more pads come back as raw endpoint groups. Nets are
    /// reported in order of their first pad.
    pub fn find_unrouted_connections(&self) -> (r: ConnectionReport)
        ensures
            r.connections@.map_values(|c: Connection| c@) == spec_connections(self),
            r.multi_pin_nets@.map_values(
                |m: (NetId, Vec<Endpoint>)| (m.0, endpoints_view(m.1@)),
            ) == spec_multi_pin_nets(self),
            r.skipped@.len() == 0,
    {
        let nets = self.distinct_pad_nets();
        let mut connections: Vec<Connection> = Vec::new();
        let mut multi: Vec<(NetId, Vec<Endpoint>)> = Vec::new();
        let mut m: usize = 0;
        while m < nets.len()
            invariant
                0 <= m <= nets@.len(),
                nets@ == pad_nets(self.pads@, self.pads@.len() as int),
                connections@.map_values(|c: Connection| c@) == connections_upto(self, m as int),
                multi@.map_values(|x: (NetId, Vec<Endpoint>)| (x.0, endpoints_view(x.1@)))
                    == multi_pin_upto(self, m as int),
            decreases nets@.len() - m,
        {
            let net = nets[m];
            let geometry = self.net_has_geometry(net);
            let eps = self.endpoints_of(net);
            let ghost prev_c = connections@;
            let ghost prev_m = multi@;
            if !geometry && eps.len() == 2 {
                let from = eps[0].duplicate();
                let to = eps[1].duplicate();
                let c = Connection { net, from, to };
                connections.push(c);
                proof {
                    assert(connections@.map_values(|c: Connection| c@) =~= prev_c.map_values(
                        |c: Connection| c@,
                    ).push(c@));
                }
            } else if !geometry && eps.len() >= 3 {
                let ghost ev = endpoints_view(eps@);
                multi.push((net, eps));
                proof {
                    assert(multi@.map_values(
                        |x: (NetId, Vec<Endpoint>)| (x.0, endpoints_view(x.1@)),
                    ) =~= prev_m.map_values(
                        |x: (NetId, Vec<Endpoint>)| (x.0, endpoints_view(x.1@)),
                    ).push((net, ev)));
                }
            }
            m += 1;
        }
        ConnectionReport { connections, multi_pin_nets: multi, skipped: Vec::new() }
    }
}

} // verus!
