//! The shared network-topology accessor and its refresh rule.
//!
//! Every packet-producing component selects its route from the current
//! topology snapshot. A snapshot is immutable: a refresh builds a complete
//! new snapshot, every node tagged with the refresh cycle that produced it,
//! and installs it wholesale. Readers therefore always see one complete
//! snapshot — the previous one or the new one, never a partial update. The
//! refresh rule prefers a stale snapshot over none: a failed or unroutable
//! periodic refresh keeps the last known good snapshot, while a failed
//! initial refresh is fatal, since no traffic can ever be sent.

use vstd::prelude::*;

verus! {

/// One mix node of a snapshot, tagged with the refresh cycle ("epoch") in
/// which it was fetched and the layer it routes in.
pub struct MixNode {
    pub identity: u64,
    pub layer: usize,
    pub epoch: u64,
}

/// One complete, immutable snapshot of the routable network: the mix nodes
/// arranged by layer, and the known gateways.
pub struct Topology {
    pub epoch: u64,
    pub layers: Vec<Vec<MixNode>>,
    pub gateways: Vec<u64>,
}

/// A coherent snapshot: every node carries the snapshot's own epoch and sits
/// in the layer that lists it.
pub open spec fn topology_wf(t: Topology) -> bool {
    forall|l: int, i: int|
        0 <= l < t.layers@.len() && 0 <= i < t.layers@[l]@.len()
            ==> (#[trigger] t.layers@[l]@[i]).epoch == t.epoch && t.layers@[l]@[i].layer == l
}

/// Whether the snapshot holds any node fetched in cycle `epoch`.
pub open spec fn has_node_of_epoch(t: Topology, epoch: u64) -> bool {
    exists|l: int, i: int|
        0 <= l < t.layers@.len() && 0 <= i < t.layers@[l]@.len()
            && (#[trigger] t.layers@[l]@[i]).epoch == epoch
}

/// A snapshot through which packets can be routed to `target_gateway`: at
/// least one layer, no empty layer, and the target gateway present.
pub open spec fn spec_routable(t: Topology, target_gateway: u64) -> bool {
    &&& t.layers@.len() >= 1
    &&& forall|l: int| 0 <= l < t.layers@.len() ==> (#[trigger] t.layers@[l])@.len() >= 1
    &&& t.gateways@.contains(target_gateway)
}

/// Law: a snapshot never mixes nodes from two different refresh cycles.
/// Readers obtain whole snapshots, so what a reader sees is uniform too.
pub proof fn lemma_topology_atomicity(t: Topology, epoch_a: u64, epoch_b: u64)
    requires
        topology_wf(t),
        epoch_a != epoch_b,
    ensures
        !(has_node_of_epoch(t, epoch_a) && has_node_of_epoch(t, epoch_b)),
{
}

impl Topology {
    /// Builds a snapshot from the plain values a directory fetch yields:
    /// node identities by layer, gateway identities, and the cycle number.
    /// Every node of the snapshot is tagged with that one cycle.
    pub fn from_parts(epoch: u64, layer_identities: Vec<Vec<u64>>, gateways: Vec<u64>) -> (r: Topology)
        ensures
            topology_wf(r),
            r.epoch == epoch,
            r.gateways@ == gateways@,
            r.layers@.len() == layer_identities@.len(),
            forall|l: int| 0 <= l < r.layers@.len()
                ==> (#[trigger] r.layers@[l])@.len() == layer_identities@[l]@.len(),
            forall|l: int, i: int|
                0 <= l < r.layers@.len() && 0 <= i < r.layers@[l]@.len()
                    ==> (#[trigger] r.layers@[l]@[i]).identity == layer_identities@[l]@[i],
    {
        let mut layers: Vec<Vec<MixNode>> = Vec::new();
        let mut l: usize = 0;
        let n_layers = layer_identities.len();
        while l < n_layers
            invariant
                l <= n_layers,
                n_layers == layer_identities@.len(),
                layers@.len() == l,
                forall|x: int| 0 <= x < l
                    ==> (#[trigger] layers@[x])@.len() == layer_identities@[x]@.len(),
                forall|x: int, i: int|
                    0 <= x < l && 0 <= i < layers@[x]@.len()
                        ==> (#[trigger] layers@[x]@[i]).epoch == epoch
                            && layers@[x]@[i].layer == x
                            && layers@[x]@[i].identity == layer_identities@[x]@[i],
            decreases n_layers - l,
        {
            let idents = &layer_identities[l];
            let mut layer: Vec<MixNode> = Vec::new();
            let mut i: usize = 0;
            let m = idents.len();
            while i < m
                invariant
                    i <= m,
                    m == idents@.len(),
                    layer@.len() == i,
                    forall|j: int| 0 <= j < i
                        ==> (#[trigger] layer@[j]).epoch == epoch
                            && layer@[j].layer == l
                            && layer@[j].identity == idents@[j],
                decreases m - i,
            {
                layer.push(MixNode { identity: idents[i], layer: l, epoch });
                i = i + 1;
            }
            layers.push(layer);
            l = l + 1;
        }
        Topology { epoch, layers, gateways }
    }

    /// Whether packets can be routed through this snapshot to the target
    /// gateway.
    pub fn is_routable(&self, target_gateway: u64) -> (r: bool)
        ensures
            r == spec_routable(*self, target_gateway),
    {
        if self.layers.len() == 0 {
            return false;
        }
        let mut l: usize = 0;
        let n = self.layers.len();
        while l < n
            invariant
                l <= n,
                n == self.layers@.len(),
                forall|x: int| 0 <= x < l ==> (#[trigger] self.layers@[x])@.len() >= 1,
            decreases n - l,
        {
            if self.layers[l].len() == 0 {
                return false;
            }
            l = l + 1;
        }
        let mut g: usize = 0;
        let m = self.gateways.len();
        while g < m
            invariant
                g <= m,
                m == self.gateways@.len(),
                self.layers@.len() >= 1,
                forall|x: int| 0 <= x < self.layers@.len() ==> (#[trigger] self.layers@[x])@.len() >= 1,
                forall|x: int| 0 <= x < g ==> self.gateways@[x] != target_gateway,
            decreases m - g,
        {
            if self.gateways[g] == target_gateway {
                proof {
                    assert(self.gateways@[g as int] == target_gateway);
                    assert(self.gateways@.contains(target_gateway));
                }
                return true;
            }
            g = g + 1;
        }
        proof {
            assert(!self.gateways@.contains(target_gateway));
        }
        false
    }
}

/// A route through the snapshot: one node per layer, chosen by the caller's
/// random picks, reduced modulo the layer size.
pub fn select_path(t: &Topology, picks: &Vec<usize>) -> (r: Vec<u64>)
    requires
        picks@.len() == t.layers@.len(),
        forall|l: int| 0 <= l < t.layers@.len() ==> (#[trigger] t.layers@[l])@.len() >= 1,
    ensures
        r@.len() == t.layers@.len(),
        forall|l: int| 0 <= l < r@.len()
            ==> #[trigger] r@[l] == t.layers@[l]@[
                picks@[l] as int % t.layers@[l]@.len() as int
            ].identity,
{
    let mut route: Vec<u64> = Vec::new();
    let mut l: usize = 0;
    let n = t.layers.len();
    while l < n
        invariant
            l <= n,
            n == t.layers@.len(),
            picks@.len() == t.layers@.len(),
            forall|x: int| 0 <= x < t.layers@.len() ==> (#[trigger] t.layers@[x])@.len() >= 1,
            route@.len() == l,
            forall|x: int| 0 <= x < l
                ==> #[trigger] route@[x] == t.layers@[x]@[
                    picks@[x] as int % t.layers@[x]@.len() as int
                ].identity,
        decreases n - l,
    {
        let layer = &t.layers[l];
        let pick = picks[l] % layer.len();
        route.push(layer[pick].identity);
        l = l + 1;
    }
    route
}

/// What a refresh attempt did.
pub enum RefreshOutcome {
    /// The fetched snapshot is routable and was installed.
    Installed,
    /// The fetch failed or yielded an unroutable snapshot, but a previous
    /// snapshot exists: it is kept, stale over none.
    KeptPrevious,
    /// The initial refresh failed or yielded an unroutable snapshot: the
    /// client cannot start.
    FatalStartupFailure,
}

/// The shared accessor through which every component reads the current
/// snapshot. A writer replaces the whole snapshot in one step; readers take
/// the whole current snapshot.
pub struct TopologyAccessor {
    current: Option<Topology>,
}

impl View for TopologyAccessor {
    type V = Option<Topology>;

    closed spec fn view(&self) -> Option<Topology> {
        self.current
    }
}

impl TopologyAccessor {
    /// Whatever snapshot is installed is coherent.
    pub open spec fn wf(&self) -> bool {
        self@ is Some ==> topology_wf(self@->Some_0)
    }

    /// A fresh accessor, before the initial refresh: no snapshot yet.
    pub fn new() -> (r: Self)
        ensures
            r.wf(),
            r@ is None,
    {
        TopologyAccessor { current: None }
    }

    /// The current snapshot, whole: the previous complete snapshot or the
    /// newly installed one, never a mixture.
    pub fn snapshot(&self) -> (r: Option<&Topology>)
        ensures
            match r {
                Some(t) => self@ == Some(*t),
                None => self@ is None,
            },
    {
        match &self.current {
            Some(t) => Some(t),
            None => None,
        }
    }

    /// Applies the result of one refresh attempt, `fetched` being the
    /// snapshot the directory service yielded, if any. A routable snapshot
    /// is installed wholesale; anything else keeps the previous snapshot,
    /// or is fatal when there is none to keep.
    pub fn apply_refresh(&mut self, fetched: Option<Topology>, target_gateway: u64) -> (r: RefreshOutcome)
        requires
            old(self).wf(),
            fetched is Some ==> topology_wf(fetched->Some_0),
        ensures
            final(self).wf(),
            match r {
                RefreshOutcome::Installed => {
                    &&& fetched is Some
                    &&& spec_routable(fetched->Some_0, target_gateway)
                    &&& final(self)@ == Some(fetched->Some_0)
                },
                RefreshOutcome::KeptPrevious => {
                    &&& !(fetched is Some && spec_routable(fetched->Some_0, target_gateway))
                    &&& old(self)@ is Some
                    &&& final(self)@ == old(self)@
                },
                RefreshOutcome::FatalStartupFailure => {
                    &&& !(fetched is Some && spec_routable(fetched->Some_0, target_gateway))
                    &&& old(self)@ is None
                    &&& final(self)@ == old(self)@
                },
            },
    {
        match fetched {
            Some(t) => {
                if t.is_routable(target_gateway) {
                    self.current = Some(t);
                    RefreshOutcome::Installed
                } else if self.current.is_some() {
                    RefreshOutcome::KeptPrevious
                } else {
                    RefreshOutcome::FatalStartupFailure
                }
            },
            None => {
                if self.current.is_some() {
                    RefreshOutcome::KeptPrevious
                } else {
                    RefreshOutcome::FatalStartupFailure
                }
            },
        }
    }
}

} // verus!
