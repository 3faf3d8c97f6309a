use vstd::prelude::*;

use crate::geom::point::MAX_COORDINATE_NM;
use crate::model::items::{Layer, Net, NetClass, NetId, Pad, RuleArea, Track, Via};

verus! {

/// The whole board, ingested in one bulk fetch. `nets` and `net_classes`
/// are keyed by `Net::id` and `NetClass::name`: a lookup finds the first
/// entry with the key, and `insert_net`/`insert_net_class` replace an
/// existing entry rather than adding a second one.
#[derive(Debug)]
pub struct Board {
    pub layers: Vec<Layer>,
    pub nets: Vec<Net>,
    pub net_classes: Vec<NetClass>,
    pub tracks: Vec<Track>,
    pub vias: Vec<Via>,
    pub pads: Vec<Pad>,
    pub rule_areas: Vec<RuleArea>,
}

/// `i` is the first index of a net with id `id`.
pub open spec fn is_first_net(nets: Seq<Net>, id: NetId, i: int) -> bool {
    &&& 0 <= i < nets.len()
    &&& nets[i].id == id
    &&& forall|j: int| 0 <= j < i ==> (#[trigger] nets[j]).id != id
}

/// The index of the net with id `id`, if any.
pub open spec fn net_index(nets: Seq<Net>, id: NetId) -> Option<int> {
    if exists|i: int| is_first_net(nets, id, i) {
        Some(choose|i: int| is_first_net(nets, id, i))
    } else {
        None
    }
}

/// No two nets share an id.
pub open spec fn nets_distinct(nets: Seq<Net>) -> bool {
    forall|i: int, j: int| 0 <= i < j < nets.len() ==> (#[trigger] nets[i]).id != (#[trigger] nets[j]).id
}

/// No two net classes share a name.
pub open spec fn classes_distinct(classes: Seq<NetClass>) -> bool {
    forall|i: int, j: int| 0 <= i < j < classes.len() ==> (#[trigger] classes[i]).name@ != (#[trigger] classes[j]).name@
}

pub proof fn lemma_net_index(nets: Seq<Net>, id: NetId)
    requires
        nets_distinct(nets),
    ensures
        net_index(nets, id) matches Some(i) ==> 0 <= i < nets.len() && nets[i].id == id,
        net_index(nets, id) is None ==> forall|i: int| 0 <= i < nets.len() ==> (#[trigger] nets[i]).id != id,
{
    if exists|i: int| is_first_net(nets, id, i) {
        let i = choose|i: int| is_first_net(nets, id, i);
    } else {
        assert forall|i: int| 0 <= i < nets.len() implies (#[trigger] nets[i]).id != id by {
            if nets[i].id == id {
                assert forall|j: int| 0 <= j < i implies (#[trigger] nets[j]).id != id by {
                }
                assert(is_first_net(nets, id, i));
            }
        }
    }
}

pub proof fn lemma_class_index(classes: Seq<NetClass>, name: Seq<char>)
    requires
        classes_distinct(classes),
    ensures
        class_index(classes, name) matches Some(i) ==> 0 <= i < classes.len() && classes[i].name@ == name,
        class_index(classes, name) is None ==> forall|i: int| 0 <= i < classes.len() ==> (#[trigger] classes[i]).name@ != name,
{
    if exists|i: int| is_first_class(classes, name, i) {
        let i = choose|i: int| is_first_class(classes, name, i);
    } else {
        assert forall|i: int| 0 <= i < classes.len() implies (#[trigger] classes[i]).name@ != name by {
            if classes[i].name@ == name {
                assert forall|j: int| 0 <= j < i implies (#[trigger] classes[j]).name@ != name by {
                }
                assert(is_first_class(classes, name, i));
            }
        }
    }
}

/// The clearance between two nets is symmetric, absent between a net and
/// itself, and, where both nets have a class, the larger of their two
/// classes' clearances: at least each of them and equal to one.
pub proof fn lemma_resolved_clearance_law(b: &Board, na: NetId, nb: NetId)
    ensures
        spec_resolved_clearance(b, na, nb) == spec_resolved_clearance(b, nb, na),
        na == nb ==> spec_resolved_clearance(b, na, nb) is None,
        (na != nb && class_of(b, na) is Some && class_of(b, nb) is Some) ==> ({
            let ca = b.net_classes@[class_of(b, na)->0].clearance_nm as int;
            let cb = b.net_classes@[class_of(b, nb)->0].clearance_nm as int;
            spec_resolved_clearance(b, na, nb) matches Some(v) && v >= ca && v >= cb && (v == ca || v == cb)
        }),
        (class_of(b, na) is None || class_of(b, nb) is None) ==> spec_resolved_clearance(b, na, nb) is None,
{
}

/// `i` is the first index of a net class named `name`.
pub open spec fn is_first_class(classes: Seq<NetClass>, name: Seq<char>, i: int) -> bool {
    &&& 0 <= i < classes.len()
    &&& classes[i].name@ == name
    &&& forall|j: int| 0 <= j < i ==> (#[trigger] classes[j]).name@ != name
}

/// The index of the net class named `name`, if any.
pub open spec fn class_index(classes: Seq<NetClass>, name: Seq<char>) -> Option<int> {
    if exists|i: int| is_first_class(classes, name, i) {
        Some(choose|i: int| is_first_class(classes, name, i))
    } else {
        None
    }
}

/// The index (into `net_classes`) of the class of net `id`, if both the
/// net and its class exist.
pub open spec fn class_of(b: &Board, id: NetId) -> Option<int> {
    match net_index(b.nets@, id) {
        Some(i) => class_index(b.net_classes@, b.nets@[i].net_class@),
        None => None,
    }
}

/// A length (width, diameter, radius, clearance) the exact predicates
/// accept: non-negative and at most `MAX_COORDINATE_NM` (1 m).
pub open spec fn dim_ok(v: int) -> bool {
    0 <= v <= MAX_COORDINATE_NM
}

impl Board {
    /// Every coordinate lies within `MAX_COORDINATE_NM` and every width,
    /// diameter, radius and clearance (including each net class's track
    /// width and via diameter) is a length `dim_ok` accepts — the range the
    /// exact predicates handle without overflow.
    pub open spec fn geometry_valid(&self) -> bool {
        &&& forall|i: int|
            0 <= i < self.tracks@.len() ==> {
                &&& (#[trigger] self.tracks@[i]).segment.in_range()
                &&& dim_ok(self.tracks@[i].width_nm as int)
            }
        &&& forall|i: int|
            0 <= i < self.vias@.len() ==> {
                &&& (#[trigger] self.vias@[i]).position.in_range()
                &&& dim_ok(self.vias@[i].diameter_nm as int)
            }
        &&& forall|i: int|
            0 <= i < self.pads@.len() ==> {
                &&& (#[trigger] self.pads@[i]).circle().center.in_range()
                &&& dim_ok(self.pads@[i].circle().radius_nm as int)
            }
        &&& forall|i: int|
            0 <= i < self.net_classes@.len() ==> {
                &&& dim_ok((#[trigger] self.net_classes@[i]).clearance_nm as int)
                &&& dim_ok(self.net_classes@[i].track_width_nm as int)
                &&& dim_ok(self.net_classes@[i].via_diameter_nm as int)
            }
        &&& forall|i: int|
            0 <= i < self.rule_areas@.len() ==> (#[trigger] self.rule_areas@[i]).outline.in_range()
    }
}

/// A resolved clearance on a valid board is a valid length.
pub proof fn lemma_resolved_clearance_ok(b: &Board, na: NetId, nb: NetId)
    requires
        b.geometry_valid(),
    ensures
        spec_resolved_clearance(b, na, nb) matches Some(v) ==> dim_ok(v),
{
    if na != nb {
        match (class_of(b, na), class_of(b, nb)) {
            (Some(i), Some(j)) => {
                assert(dim_ok(b.net_classes@[i].clearance_nm as int));
                assert(dim_ok(b.net_classes@[j].clearance_nm as int));
            },
            _ => {},
        }
    }
}

pub open spec fn max_int(a: int, b: int) -> int {
    if a >= b {
        a
    } else {
        b
    }
}

/// The clearance required between copper on `a` and copper on `b`: none
/// within one net; otherwise the larger of the two nets' class
/// clearances, or `None` when either net or its class is missing.
pub open spec fn spec_resolved_clearance(b: &Board, na: NetId, nb: NetId) -> Option<int> {
    if na == nb {
        None
    } else {
        match (class_of(b, na), class_of(b, nb)) {
            (Some(i), Some(j)) => Some(
                max_int(b.net_classes@[i].clearance_nm as int, b.net_classes@[j].clearance_nm as int),
            ),
            _ => None,
        }
    }
}

proof fn lemma_first_net_unique(nets: Seq<Net>, id: NetId, i: int)
    requires
        is_first_net(nets, id, i),
    ensures
        net_index(nets, id) == Some(i),
{
    let k = choose|k: int| is_first_net(nets, id, k);
    assert(is_first_net(nets, id, k));
    if k < i {
        assert(nets[k].id != id);
    }
    if i < k {
        assert(nets[i].id != id);
    }
}

proof fn lemma_first_class_unique(classes: Seq<NetClass>, name: Seq<char>, i: int)
    requires
        is_first_class(classes, name, i),
    ensures
        class_index(classes, name) == Some(i),
{
    let k = choose|k: int| is_first_class(classes, name, k);
    assert(is_first_class(classes, name, k));
    if k < i {
        assert(classes[k].name@ != name);
    }
    if i < k {
        assert(classes[i].name@ != name);
    }
}

impl Board {
    /// An empty board.
    pub fn new() -> (b: Board)
        ensures
            b.layers@.len() == 0,
            b.nets@.len() == 0,
            b.net_classes@.len() == 0,
            b.tracks@.len() == 0,
            b.vias@.len() == 0,
            b.pads@.len() == 0,
            b.rule_areas@.len() == 0,
    {
        Board {
            layers: Vec::new(),
            nets: Vec::new(),
            net_classes: Vec::new(),
            tracks: Vec::new(),
            vias: Vec::new(),
            pads: Vec::new(),
            rule_areas: Vec::new(),
        }
    }

    /// The index of the net with id `id`.
    pub fn find_net(&self, id: NetId) -> (r: Option<usize>)
        ensures
            match r {
                Some(i) => net_index(self.nets@, id) == Some(i as int),
                None => net_index(self.nets@, id).is_none(),
            },
    {
        let mut i: usize = 0;
        while i < self.nets.len()
            invariant
                0 <= i <= self.nets@.len(),
                forall|j: int| 0 <= j < i ==> (#[trigger] self.nets@[j]).id != id,
            decreases self.nets@.len() - i,
        {
            if self.nets[i].id == id {
                proof {
                    lemma_first_net_unique(self.nets@, id, i as int);
                }
                return Some(i);
            }
            i += 1;
        }
        proof {
            assert(!exists|k: int| is_first_net(self.nets@, id, k)) by {
                if exists|k: int| is_first_net(self.nets@, id, k) {
                    let k = choose|k: int| is_first_net(self.nets@, id, k);
                    assert(self.nets@[k].id != id);
                }
            }
        }
        None
    }

    /// The index of the net class named `name`.
    pub fn find_net_class(&self, name: &String) -> (r: Option<usize>)
        ensures
            match r {
                Some(i) => class_index(self.net_classes@, name@) == Some(i as int),
                None => class_index(self.net_classes@, name@).is_none(),
            },
    {
        let mut i: usize = 0;
        while i < self.net_classes.len()
            invariant
                0 <= i <= self.net_classes@.len(),
                forall|j: int| 0 <= j < i ==> (#[trigger] self.net_classes@[j]).name@ != name@,
            decreases self.net_classes@.len() - i,
        {
            if self.net_classes[i].name == *name {
                proof {
                    lemma_first_class_unique(self.net_classes@, name@, i as int);
                }
                return Some(i);
            }
            i += 1;
        }
        proof {
            assert(!exists|k: int| is_first_class(self.net_classes@, name@, k)) by {
                if exists|k: int| is_first_class(self.net_classes@, name@, k) {
                    let k = choose|k: int| is_first_class(self.net_classes@, name@, k);
                    assert(self.net_classes@[k].name@ != name@);
                }
            }
        }
        None
    }

    /// Index of the effective net class of `net_id`.
    pub fn net_class_index(&self, net_id: NetId) -> (r: Option<usize>)
        ensures
            match r {
                Some(i) => class_of(self, net_id) == Some(i as int),
                None => class_of(self, net_id).is_none(),
            },
    {
        match self.find_net(net_id) {
            Some(i) => self.find_net_class(&self.nets[i].net_class),
            None => None,
        }
    }

    /// The effective net class of a net, or `None` if either the net or
    /// its assigned class is missing from this board.
    pub fn net_class_for(&self, net_id: NetId) -> (r: Option<&NetClass>)
        ensures
            match r {
                Some(c) => class_of(self, net_id) matches Some(i) && *c == self.net_classes@[i],
                None => class_of(self, net_id).is_none(),
            },
    {
        match self.net_class_index(net_id) {
            Some(i) => Some(&self.net_classes[i]),
            None => None,
        }
    }

    /// The clearance required between copper on `net_a` and copper on
    /// `net_b` (see `spec_resolved_clearance`).
    pub fn resolved_clearance_nm(&self, net_a: NetId, net_b: NetId) -> (r: Option<i64>)
        ensures
            match r {
                Some(v) => spec_resolved_clearance(self, net_a, net_b) == Some(v as int),
                None => spec_resolved_clearance(self, net_a, net_b).is_none(),
            },
    {
        if net_a == net_b {
            return None;
        }
        let ia = self.net_class_index(net_a);
        let ib = self.net_class_index(net_b);
        match (ia, ib) {
            (Some(i), Some(j)) => {
                let ca = self.net_classes[i].clearance_nm;
                let cb = self.net_classes[j].clearance_nm;
                Some(if ca >= cb { ca } else { cb })
            },
            _ => None,
        }
    }

    /// Adds `net`, replacing an existing net with the same id.
    pub fn insert_net(&mut self, net: Net)
        ensures
            match net_index(old(self).nets@, net.id) {
                Some(i) => final(self).nets@ == old(self).nets@.update(i, net),
                None => final(self).nets@ == old(self).nets@.push(net),
            },
            nets_distinct(old(self).nets@) ==> nets_distinct(final(self).nets@),
            final(self).layers == old(self).layers,
            final(self).net_classes == old(self).net_classes,
            final(self).tracks == old(self).tracks,
            final(self).vias == old(self).vias,
            final(self).pads == old(self).pads,
            final(self).rule_areas == old(self).rule_areas,
    {
        let ghost n0 = self.nets@;
        proof {
            if nets_distinct(n0) {
                lemma_net_index(n0, net.id);
            }
        }
        match self.find_net(net.id) {
            Some(i) => {
                self.nets.set(i, net);
                proof {
                    if nets_distinct(n0) {
                        assert forall|a: int, b: int| 0 <= a < b < self.nets@.len() implies (#[trigger] self.nets@[a]).id
                            != (#[trigger] self.nets@[b]).id by {
                            assert(self.nets@[a].id == n0[a].id && self.nets@[b].id == n0[b].id);
                        }
                    }
                }
            },
            None => {
                self.nets.push(net);
                proof {
                    if nets_distinct(n0) {
                        assert forall|a: int, b: int| 0 <= a < b < self.nets@.len() implies (#[trigger] self.nets@[a]).id
                            != (#[trigger] self.nets@[b]).id by {
                            if b == n0.len() {
                                assert(self.nets@[a] == n0[a]);
                            } else {
                                assert(self.nets@[a] == n0[a] && self.nets@[b] == n0[b]);
                            }
                        }
                    }
                }
            },
        }
    }

    /// Adds `class`, replacing an existing class with the same name.
    pub fn insert_net_class(&mut self, class: NetClass)
        ensures
            match class_index(old(self).net_classes@, class.name@) {
                Some(i) => final(self).net_classes@ == old(self).net_classes@.update(i, class),
                None => final(self).net_classes@ == old(self).net_classes@.push(class),
            },
            classes_distinct(old(self).net_classes@) ==> classes_distinct(final(self).net_classes@),
            final(self).layers == old(self).layers,
            final(self).nets == old(self).nets,
            final(self).tracks == old(self).tracks,
            final(self).vias == old(self).vias,
            final(self).pads == old(self).pads,
            final(self).rule_areas == old(self).rule_areas,
    {
        let ghost c0 = self.net_classes@;
        proof {
            if classes_distinct(c0) {
                lemma_class_index(c0, class.name@);
            }
        }
        match self.find_net_class(&class.name) {
            Some(i) => {
                self.net_classes.set(i, class);
                proof {
                    if classes_distinct(c0) {
                        assert forall|a: int, b: int| 0 <= a < b < self.net_classes@.len() implies (#[trigger] self.net_classes@[a]).name@
                            != (#[trigger] self.net_classes@[b]).name@ by {
                            assert(self.net_classes@[a].name@ == c0[a].name@ && self.net_classes@[b].name@ == c0[b].name@);
                        }
                    }
                }
            },
            None => {
                self.net_classes.push(class);
                proof {
                    if classes_distinct(c0) {
                        assert forall|a: int, b: int| 0 <= a < b < self.net_classes@.len() implies (#[trigger] self.net_classes@[a]).name@
                            != (#[trigger] self.net_classes@[b]).name@ by {
                            if b == c0.len() {
                                assert(self.net_classes@[a] == c0[a]);
                            } else {
                                assert(self.net_classes@[a] == c0[a] && self.net_classes@[b] == c0[b]);
                            }
                        }
                    }
                }
            },
        }
    }
}

/// The indices (in order) of the first `k` pads that belong to `net`.
pub open spec fn pads_of_net(pads: Seq<Pad>, net: NetId, k: int) -> Seq<int>
    decreases k,
{
    if k <= 0 {
        Seq::empty()
    } else if pads[k - 1].net == net {
        pads_of_net(pads, net, k - 1).push(k - 1)
    } else {
        pads_of_net(pads, net, k - 1)
    }
}

/// The two pads of `net` when it has exactly two.
pub open spec fn spec_two_pin(b: &Board, net: NetId) -> Option<(int, int)> {
    let ix = pads_of_net(b.pads@, net, b.pads@.len() as int);
    if ix.len() == 2 {
        Some((ix[0], ix[1]))
    } else {
        None
    }
}

/// Whether some net is named `name`; if so, that name.
pub open spec fn net_named(nets: Seq<Net>, name: Seq<char>) -> Option<Seq<char>> {
    if exists|i: int| 0 <= i < nets.len() && (#[trigger] nets[i]).name@ == name {
        Some(name)
    } else {
        None
    }
}

pub proof fn lemma_pads_of_net_bounds(pads: Seq<Pad>, net: NetId, k: int)
    requires
        k <= pads.len(),
    ensures
        forall|m: int|
            0 <= m < pads_of_net(pads, net, k).len() ==> 0 <= #[trigger] pads_of_net(pads, net, k)[m]
                < k && pads[pads_of_net(pads, net, k)[m]].net == net,
    decreases k,
{
    if k > 0 {
        lemma_pads_of_net_bounds(pads, net, k - 1);
    }
}

impl Board {
    /// The two terminal pads of `net` when it has exactly two pads (a
    /// 2-pin connection), in board order; `None` otherwise.
    pub fn two_pin_net_endpoints(&self, net: NetId) -> (r: Option<[&Pad; 2]>)
        ensures
            match (r, spec_two_pin(self, net)) {
                (Some(ps), Some((i, j))) => *ps@[0] == self.pads@[i] && *ps@[1] == self.pads@[j],
                (None, None) => true,
                _ => false,
            },
    {
        let mut ix: Vec<usize> = Vec::new();
        let mut k: usize = 0;
        while k < self.pads.len()
            invariant
                k <= self.pads@.len(),
                ix@.len() == pads_of_net(self.pads@, net, k as int).len(),
                forall|m: int|
                    0 <= m < ix@.len() ==> ix@[m] as int == #[trigger] pads_of_net(
                        self.pads@,
                        net,
                        k as int,
                    )[m],
            decreases self.pads@.len() - k,
        {
            if self.pads[k].net == net {
                ix.push(k);
            }
            k += 1;
        }
        proof {
            lemma_pads_of_net_bounds(self.pads@, net, self.pads@.len() as int);
        }
        if ix.len() == 2 {
            let a = ix[0];
            let b = ix[1];
            proof {
                assert(a as int == pads_of_net(self.pads@, net, self.pads@.len() as int)[0]);
                assert(b as int == pads_of_net(self.pads@, net, self.pads@.len() as int)[1]);
            }
            Some([&self.pads[a], &self.pads[b]])
        } else {
            None
        }
    }

    /// The index of the first net named `name`.
    pub fn find_net_named(&self, name: &String) -> (r: Option<usize>)
        ensures
            match r {
                Some(i) => i < self.nets@.len() && self.nets@[i as int].name@ == name@,
                None => forall|i: int| 0 <= i < self.nets@.len() ==> (#[trigger] self.nets@[i]).name@ != name@,
            },
    {
        let mut i: usize = 0;
        while i < self.nets.len()
            invariant
                0 <= i <= self.nets@.len(),
                forall|j: int| 0 <= j < i ==> (#[trigger] self.nets@[j]).name@ != name@,
            decreases self.nets@.len() - i,
        {
            if self.nets[i].name == *name {
                return Some(i);
            }
            i += 1;
        }
        None
    }
}

/// Looking up a net right after inserting it finds the inserted net.
pub proof fn lemma_insert_net_then_lookup(before: Seq<Net>, after: Seq<Net>, net: Net)
    requires
        match net_index(before, net.id) {
            Some(i) => after == before.update(i, net),
            None => after == before.push(net),
        },
    ensures
        net_index(after, net.id) matches Some(k) && after[k] == net,
{
    match net_index(before, net.id) {
        Some(i) => {
            let i0 = choose|k: int| is_first_net(before, net.id, k);
            assert(is_first_net(after, net.id, i0)) by {
                assert forall|j: int| 0 <= j < i0 implies (#[trigger] after[j]).id != net.id by {
                    assert(before[j].id != net.id);
                }
            }
            lemma_first_net_unique(after, net.id, i0);
        },
        None => {
            let n = before.len() as int;
            assert(forall|j: int| 0 <= j < n ==> (#[trigger] before[j]).id != net.id) by {
                assert forall|j: int| 0 <= j < n implies (#[trigger] before[j]).id != net.id by {
                    if before[j].id == net.id {
                        // the first such index would be a witness
                        lemma_some_first(before, net.id, j);
                    }
                }
            }
            assert(is_first_net(after, net.id, n)) by {
                assert forall|j: int| 0 <= j < n implies (#[trigger] after[j]).id != net.id by {
                    assert(after[j] == before[j]);
                }
            }
            lemma_first_net_unique(after, net.id, n);
        },
    }
}

/// Any occurrence of an id implies a first occurrence.
proof fn lemma_some_first(nets: Seq<Net>, id: NetId, j: int)
    requires
        0 <= j < nets.len(),
        nets[j].id == id,
    ensures
        exists|i: int| is_first_net(nets, id, i),
    decreases j,
{
    if exists|k: int| 0 <= k < j && (#[trigger] nets[k]).id == id {
        let k = choose|k: int| 0 <= k < j && (#[trigger] nets[k]).id == id;
        lemma_some_first(nets, id, k);
    } else {
        assert(is_first_net(nets, id, j));
    }
}

/// Inserting a net leaves the lookup of every other id unchanged.
pub proof fn lemma_insert_net_other(before: Seq<Net>, after: Seq<Net>, net: Net, other: NetId)
    requires
        match net_index(before, net.id) {
            Some(i) => after == before.update(i, net),
            None => after == before.push(net),
        },
        other != net.id,
    ensures
        net_index(after, other) == net_index(before, other),
        net_index(before, other) matches Some(k) ==> after[k] == before[k],
{
    let n = before.len() as int;
    assert forall|j: int| 0 <= j < n && #[trigger] before[j].id == other implies after[j] == before[j] by {
        match net_index(before, net.id) {
            Some(i) => {
                let i0 = choose|k: int| is_first_net(before, net.id, k);
                assert(before[i0].id == net.id);
            },
            None => {},
        }
    }
    assert forall|j: int| 0 <= j < n implies (#[trigger] after[j]).id == before[j].id by {
        match net_index(before, net.id) {
            Some(i) => {
                let i0 = choose|k: int| is_first_net(before, net.id, k);
                assert(before[i0].id == net.id);
            },
            None => {},
        }
    }
    match net_index(before, other) {
        Some(k) => {
            let k0 = choose|k: int| is_first_net(before, other, k);
            assert(is_first_net(after, other, k0)) by {
                assert forall|j: int| 0 <= j < k0 implies (#[trigger] after[j]).id != other by {
                    assert(after[j].id == before[j].id);
                }
                assert(after[k0].id == before[k0].id);
            }
            lemma_first_net_unique(after, other, k0);
        },
        None => {
            if exists|i: int| is_first_net(after, other, i) {
                let i = choose|i: int| is_first_net(after, other, i);
                if i < n {
                    assert(after[i].id == before[i].id);
                    lemma_some_first(before, other, i);
                } else {
                    assert(after[i] == net);
                }
            }
        },
    }
}

proof fn lemma_some_first_class(classes: Seq<NetClass>, name: Seq<char>, j: int)
    requires
        0 <= j < classes.len(),
        classes[j].name@ == name,
    ensures
        exists|i: int| is_first_class(classes, name, i),
    decreases j,
{
    if exists|k: int| 0 <= k < j && (#[trigger] classes[k]).name@ == name {
        let k = choose|k: int| 0 <= k < j && (#[trigger] classes[k]).name@ == name;
        lemma_some_first_class(classes, name, k);
    } else {
        assert(is_first_class(classes, name, j));
    }
}

/// Adding a class under a name no class has yet makes it findable.
pub proof fn lemma_push_new_class(before: Seq<NetClass>, c: NetClass)
    requires
        class_index(before, c.name@).is_none(),
    ensures
        class_index(before.push(c), c.name@) == Some(before.len() as int),
{
    let after = before.push(c);
    let n = before.len() as int;
    assert forall|j: int| 0 <= j < n implies (#[trigger] after[j]).name@ != c.name@ by {
        assert(after[j] == before[j]);
        if before[j].name@ == c.name@ {
            lemma_some_first_class(before, c.name@, j);
        }
    }
    assert(is_first_class(after, c.name@, n));
    lemma_first_class_unique(after, c.name@, n);
}

/// Inserting a class keeps every name that was findable findable.
pub proof fn lemma_insert_class_keeps(before: Seq<NetClass>, after: Seq<NetClass>, c: NetClass, name: Seq<char>)
    requires
        match class_index(before, c.name@) {
            Some(i) => after == before.update(i, c),
            None => after == before.push(c),
        },
        class_index(before, name).is_some(),
    ensures
        class_index(after, name).is_some(),
{
    if name == c.name@ {
        match class_index(before, c.name@) {
            Some(i) => {
                let i0 = choose|k: int| is_first_class(before, c.name@, k);
                assert(is_first_class(after, c.name@, i0)) by {
                    assert forall|j: int| 0 <= j < i0 implies (#[trigger] after[j]).name@ != c.name@ by {
                        assert(after[j] == before[j]);
                    }
                }
            },
            None => {},
        }
    } else {
        let k0 = choose|k: int| is_first_class(before, name, k);
        let i0 = choose|k: int| is_first_class(before, c.name@, k);
        assert(is_first_class(after, name, k0)) by {
            assert forall|j: int| 0 <= j < k0 implies (#[trigger] after[j]).name@ != name by {
                if class_index(before, c.name@).is_some() && j == i0 {
                    assert(after[j] == c);
                } else {
                    assert(after[j] == before[j]);
                }
            }
            if class_index(before, c.name@).is_some() {
                assert(before[i0].name@ == c.name@);
                assert(k0 != i0);
            }
            assert(after[k0] == before[k0]);
        }
    }
}

} // verus!
