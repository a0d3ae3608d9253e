//! Layer placement projections of a managed network: which node hosts which
//! layers, how many neurons a network holds, and the advisory telemetry that
//! describes how one placement moves to the next.

use crate::scan::{chars_of, trim, trim_bounds};
use crate::text::{decimal, decimal_spec};
use vstd::prelude::*;
use vstd::string::*;

verus! {

/// Lexicographic order of strings by code point, the order of `str`.
pub open spec fn str_lt(a: Seq<char>, b: Seq<char>) -> bool
    decreases a.len(),
{
    if a.len() == 0 {
        b.len() > 0
    } else if b.len() == 0 {
        false
    } else if a[0] != b[0] {
        a[0] < b[0]
    } else {
        str_lt(a.drop_first(), b.drop_first())
    }
}

/// Two strings neither of which precedes the other are equal.
pub proof fn lemma_str_lt_total(a: Seq<char>, b: Seq<char>)
    ensures
        !str_lt(a, b) && !str_lt(b, a) ==> a == b,
    decreases a.len(),
{
    if a.len() > 0 && b.len() > 0 {
        if a[0] == b[0] {
            lemma_str_lt_total(a.drop_first(), b.drop_first());
            if a.drop_first() == b.drop_first() {
                assert(a =~= seq![a[0]] + a.drop_first());
                assert(b =~= seq![b[0]] + b.drop_first());
            }
        }
    } else if a.len() == 0 && b.len() == 0 {
        assert(a =~= b);
    }
}

/// Whether `a` precedes `b` in the order of strings.
pub fn str_less(a: &str, b: &str) -> (r: bool)
    ensures
        r == str_lt(a@, b@),
{
    let x = chars_of(a);
    let y = chars_of(b);
    let mut i: usize = 0;
    assert(x@.skip(0) =~= x@ && y@.skip(0) =~= y@);
    while i < x.len() && i < y.len() && x[i] == y[i]
        invariant
            i <= x@.len(),
            i <= y@.len(),
            str_lt(x@, y@) == str_lt(x@.skip(i as int), y@.skip(i as int)),
        decreases x@.len() - i,
    {
        assert(x@.skip(i as int).drop_first() =~= x@.skip(i + 1));
        assert(y@.skip(i as int).drop_first() =~= y@.skip(i + 1));
        i = i + 1;
    }
    let ghost xs = x@.skip(i as int);
    let ghost ys = y@.skip(i as int);
    if i == x.len() {
        assert(xs.len() == 0);
        i < y.len()
    } else if i == y.len() {
        assert(ys.len() == 0);
        false
    } else {
        assert(xs[0] == x@[i as int] && ys[0] == y@[i as int]);
        x[i] < y[i]
    }
}

/// The layers a node hosts and how many neurons each holds.
#[derive(Clone, Debug)]
pub struct LayerRange {
    /// Layers the node runs as their active owner.
    pub layers: Vec<u32>,
    /// Neuron count per layer, as the node reports it.
    pub layer_neuron_counts: Vec<(u32, u64)>,
    /// Layers the node holds as a backup.
    pub backup_layers: Vec<u32>,
}

/// Mathematical value of a [`LayerRange`].
pub struct LayerRangeView {
    pub layers: Seq<u32>,
    pub layer_neuron_counts: Seq<(u32, u64)>,
    pub backup_layers: Seq<u32>,
}

impl View for LayerRange {
    type V = LayerRangeView;

    open spec fn view(&self) -> LayerRangeView {
        LayerRangeView {
            layers: self.layers@,
            layer_neuron_counts: self.layer_neuron_counts@,
            backup_layers: self.backup_layers@,
        }
    }
}

/// The placement of one network: a layer range per node, keyed by node id.
#[derive(Clone, Debug)]
pub struct LayerDistribution {
    entries: Vec<(String, LayerRange)>,
}

pub open spec fn entry_view(e: (String, LayerRange)) -> (Seq<char>, LayerRangeView) {
    (e.0@, e.1@)
}

/// Node ids strictly increase along the entries.
pub open spec fn ids_increasing(es: Seq<(Seq<char>, LayerRangeView)>) -> bool {
    forall|i: int| 0 <= i < es.len() - 1 ==> str_lt(#[trigger] es[i].0, es[i + 1].0)
}

/// The index at which `id` is found or belongs: the first entry whose id does
/// not precede it.
pub open spec fn slot_of(es: Seq<(Seq<char>, LayerRangeView)>, id: Seq<char>) -> int
    decreases es.len(),
{
    if es.len() == 0 {
        0
    } else if !str_lt(es[0].0, id) {
        0
    } else {
        1 + slot_of(es.drop_first(), id)
    }
}

impl View for LayerDistribution {
    type V = Seq<(Seq<char>, LayerRangeView)>;

    closed spec fn view(&self) -> Seq<(Seq<char>, LayerRangeView)> {
        self.entries@.map_values(|e: (String, LayerRange)| entry_view(e))
    }
}

impl LayerDistribution {
    /// Entries are kept in increasing node-id order, each id once.
    pub open spec fn wf(&self) -> bool {
        ids_increasing(self@)
    }

    /// The empty placement.
    pub fn new() -> (d: LayerDistribution)
        ensures
            d.wf(),
            d@ == Seq::<(Seq<char>, LayerRangeView)>::empty(),
    {
        let d = LayerDistribution { entries: Vec::new() };
        assert(d@ =~= Seq::<(Seq<char>, LayerRangeView)>::empty());
        d
    }

    /// The number of nodes.
    pub fn len(&self) -> (n: usize)
        ensures
            n == self@.len(),
    {
        self.entries.len()
    }

    /// Whether no node is placed.
    pub fn is_empty(&self) -> (r: bool)
        ensures
            r == (self@.len() == 0),
    {
        self.entries.len() == 0
    }

    /// The entries in increasing node-id order.
    pub fn entries(&self) -> (r: &Vec<(String, LayerRange)>)
        ensures
            r@.map_values(|e: (String, LayerRange)| entry_view(e)) == self@,
    {
        &self.entries
    }

    /// Places `range` on `node_id`, replacing and returning the range it had.
    #[verifier::rlimit(40)]
    pub fn insert(&mut self, node_id: String, range: LayerRange) -> (old_range: Option<LayerRange>)
        requires
            old(self).wf(),
        ensures
            final(self).wf(),
            ({
                let p = slot_of(old(self)@, node_id@);
                &&& 0 <= p <= old(self)@.len()
                &&& if p < old(self)@.len() && old(self)@[p].0 == node_id@ {
                    &&& final(self)@ == old(self)@.update(p, (node_id@, range@))
                    &&& old_range matches Some(r) && r@ == old(self)@[p].1
                } else {
                    &&& final(self)@ == old(self)@.insert(p, (node_id@, range@))
                    &&& old_range is None
                }
            }),
    {
        let ghost es = self@;
        let mut i: usize = 0;
        assert(es.skip(0) =~= es);
        while i < self.entries.len() && str_less(self.entries[i].0.as_str(), node_id.as_str())
            invariant
                es == self@,
                es == old(self)@,
                ids_increasing(es),
                i <= es.len(),
                forall|k: int| 0 <= k < i ==> str_lt(#[trigger] es[k].0, node_id@),
                slot_of(es, node_id@) == i + slot_of(es.skip(i as int), node_id@),
            decreases es.len() - i,
        {
            assert(es.skip(i as int)[0] == es[i as int]);
            assert(es.skip(i as int).drop_first() =~= es.skip(i + 1));
            assert(es[i as int] == entry_view(self.entries@[i as int]));
            i = i + 1;
        }
        proof {
            if i < es.len() {
                assert(es[i as int] == entry_view(self.entries@[i as int]));
                assert(es.skip(i as int)[0] == es[i as int]);
                assert(!str_lt(es[i as int].0, node_id@));
            }
        }
        assert(slot_of(es, node_id@) == i);
        let ghost id = node_id@;
        let ghost rv = range@;
        if i < self.entries.len() && self.entries[i].0 == node_id {
            assert(es[i as int].0 == id);
            let (_, previous) = self.entries.remove(i);
            self.entries.insert(i, (node_id, range));
            assert(self@ =~= es.update(i as int, (id, rv)));
            Some(previous)
        } else {
            proof {
                if i < es.len() {
                    assert(es[i as int] == entry_view(self.entries@[i as int]));
                    lemma_str_lt_total(es[i as int].0, id);
                }
            }
            self.entries.insert(i, (node_id, range));
            let ghost now = es.insert(i as int, (id, rv));
            assert(self@ =~= now);
            assert forall|k: int| 0 <= k < now.len() - 1 implies str_lt(#[trigger] now[k].0, now[k + 1].0) by {
                if k < i - 1 {
                    assert(now[k] == es[k] && now[k + 1] == es[k + 1]);
                } else if k == i - 1 {
                    assert(now[k] == es[k]);
                } else if k == i {
                } else {
                    assert(now[k] == es[k - 1] && now[k + 1] == es[k]);
                }
            }
            None
        }
    }
}

/// Every node's reported layer counts, node after node.
pub open spec fn flat_counts(es: Seq<(Seq<char>, LayerRangeView)>) -> Seq<(u32, u64)>
    decreases es.len(),
{
    if es.len() == 0 {
        Seq::empty()
    } else {
        flat_counts(es.drop_last()) + es.last().1.layer_neuron_counts
    }
}

pub open spec fn count_layer(p: (u32, u64)) -> u32 {
    p.0
}

/// The sum of the counts, each layer counted once, at its first report.
pub open spec fn first_seen_sum(s: Seq<(u32, u64)>) -> nat
    decreases s.len(),
{
    if s.len() == 0 {
        0
    } else {
        first_seen_sum(s.drop_last()) + if s.drop_last().map_values(|p: (u32, u64)| count_layer(p)).contains(
            s.last().0,
        ) {
            0nat
        } else {
            s.last().1 as nat
        }
    }
}

fn contains_u32(v: &Vec<u32>, x: u32) -> (r: bool)
    ensures
        r == v@.contains(x),
{
    let mut i: usize = 0;
    while i < v.len()
        invariant
            i <= v@.len(),
            forall|k: int| 0 <= k < i ==> v@[k] != x,
        decreases v@.len() - i,
    {
        if v[i] == x {
            return true;
        }
        i = i + 1;
    }
    false
}

/// The number of neurons in a network placement: each layer is counted once,
/// with the count of the first node (in node-id order) that reports it; the
/// total saturates at `u64::MAX`.
pub fn total_neurons_from_distribution(distribution: &LayerDistribution) -> (total: u64)
    ensures
        total as nat == if first_seen_sum(flat_counts(distribution@)) > u64::MAX as nat {
            u64::MAX as nat
        } else {
            first_seen_sum(flat_counts(distribution@))
        },
{
    let entries = distribution.entries();
    let ghost es = distribution@;
    let mut total: u64 = 0;
    let mut seen: Vec<u32> = Vec::new();
    let mut i: usize = 0;
    assert(es.take(0) =~= Seq::<(Seq<char>, LayerRangeView)>::empty());
    while i < entries.len()
        invariant
            es == entries@.map_values(|e: (String, LayerRange)| entry_view(e)),
            i <= es.len(),
            seen@ == flat_counts(es.take(i as int)).map_values(|p: (u32, u64)| count_layer(p)),
            total as nat == if first_seen_sum(flat_counts(es.take(i as int))) > u64::MAX as nat {
                u64::MAX as nat
            } else {
                first_seen_sum(flat_counts(es.take(i as int)))
            },
        decreases es.len() - i,
    {
        let counts = &entries[i].1.layer_neuron_counts;
        let ghost base = flat_counts(es.take(i as int));
        assert(es[i as int].1.layer_neuron_counts == counts@);
        assert(es.take(i + 1).drop_last() =~= es.take(i as int));
        assert(flat_counts(es.take(i + 1)) == base + counts@);
        let mut j: usize = 0;
        assert(base + counts@.take(0) =~= base);
        while j < counts.len()
            invariant
                i < es.len(),
                j <= counts@.len(),
                seen@ == (base + counts@.take(j as int)).map_values(|p: (u32, u64)| count_layer(p)),
                total as nat == if first_seen_sum(base + counts@.take(j as int)) > u64::MAX as nat {
                    u64::MAX as nat
                } else {
                    first_seen_sum(base + counts@.take(j as int))
                },
            decreases counts@.len() - j,
        {
            let (layer, count) = counts[j];
            let ghost done = base + counts@.take(j as int);
            let ghost next = base + counts@.take(j + 1);
            assert(next.drop_last() =~= done);
            assert(next.last() == (layer, count));
            if !contains_u32(&seen, layer) {
                total = total.saturating_add(count);
            }
            seen.push(layer);
            assert(seen@ =~= next.map_values(|p: (u32, u64)| count_layer(p)));
            j = j + 1;
        }
        assert(counts@.take(j as int) =~= counts@);
        i = i + 1;
    }
    assert(es.take(i as int) =~= es);
    total
}

/// The layers a node lists for a role: its active layers, or its backups.
pub open spec fn role_list(r: LayerRangeView, backup: bool) -> Seq<u32> {
    if backup {
        r.backup_layers
    } else {
        r.layers
    }
}

/// How often `x` occurs in `s`.
pub open spec fn count_of(s: Seq<u32>, x: u32) -> nat
    decreases s.len(),
{
    if s.len() == 0 {
        0
    } else {
        count_of(s.drop_last(), x) + if s.last() == x {
            1nat
        } else {
            0nat
        }
    }
}

/// The nodes that hold `layer` in a role, in node-id order, once per listing.
pub open spec fn owners(es: Seq<(Seq<char>, LayerRangeView)>, layer: u32, backup: bool) -> Seq<Seq<char>>
    decreases es.len(),
{
    if es.len() == 0 {
        Seq::empty()
    } else {
        owners(es.drop_last(), layer, backup) + Seq::new(
            count_of(role_list(es.last().1, backup), layer),
            |_i: int| es.last().0,
        )
    }
}

/// Some node lists `layer` for the role.
pub open spec fn hosts_layer(es: Seq<(Seq<char>, LayerRangeView)>, backup: bool, layer: u32) -> bool
    decreases es.len(),
{
    es.len() > 0 && (hosts_layer(es.drop_last(), backup, layer) || role_list(es.last().1, backup).contains(
        layer,
    ))
}

pub open spec fn strictly_increasing(q: Seq<u32>) -> bool {
    forall|i: int, j: int| 0 <= i < j < q.len() ==> q[i] < q[j]
}

/// `q` lists, in increasing order, each layer that either placement holds in
/// the role.
pub open spec fn enumerates_layers(
    q: Seq<u32>,
    previous: Seq<(Seq<char>, LayerRangeView)>,
    next: Seq<(Seq<char>, LayerRangeView)>,
    backup: bool,
) -> bool {
    strictly_increasing(q) && forall|l: u32| #[trigger]
        q.contains(l) <==> (hosts_layer(previous, backup, l) || hosts_layer(next, backup, l))
}

/// The layers either placement holds in the role, in increasing order.
pub open spec fn role_layers(
    previous: Seq<(Seq<char>, LayerRangeView)>,
    next: Seq<(Seq<char>, LayerRangeView)>,
    backup: bool,
) -> Seq<u32> {
    choose|q: Seq<u32>| enumerates_layers(q, previous, next, backup)
}

/// Two increasing sequences holding the same values are equal.
pub proof fn lemma_increasing_unique(a: Seq<u32>, b: Seq<u32>)
    requires
        strictly_increasing(a),
        strictly_increasing(b),
        forall|l: u32| #[trigger] a.contains(l) <==> b.contains(l),
    ensures
        a == b,
    decreases a.len(),
{
    if a.len() == 0 {
        if b.len() > 0 {
            assert(b.contains(b[0]));
            assert(a.contains(b[0]));
        }
        assert(a =~= b);
    } else {
        assert(a.contains(a[0]));
        assert(b.contains(a[0]));
        assert(b.len() > 0);
        assert(b.contains(b[0]));
        assert(a.contains(b[0]));
        let ja = choose|j: int| 0 <= j < a.len() && a[j] == b[0];
        let jb = choose|j: int| 0 <= j < b.len() && b[j] == a[0];
        assert(a[0] <= b[0]) by {
            if ja > 0 {
                assert(a[0] < a[ja]);
            }
        }
        assert(b[0] <= a[0]) by {
            if jb > 0 {
                assert(b[0] < b[jb]);
            }
        }
        assert(a[0] == b[0]);
        let a1 = a.drop_first();
        let b1 = b.drop_first();
        assert forall|l: u32| #[trigger] a1.contains(l) <==> b1.contains(l) by {
            if a1.contains(l) {
                let k = choose|k: int| 0 <= k < a1.len() && a1[k] == l;
                assert(a[k + 1] == l && a[0] < a[k + 1]);
                assert(a.contains(l));
                let m = choose|m: int| 0 <= m < b.len() && b[m] == l;
                assert(m != 0);
                assert(b1[m - 1] == l);
            }
            if b1.contains(l) {
                let k = choose|k: int| 0 <= k < b1.len() && b1[k] == l;
                assert(b[k + 1] == l && b[0] < b[k + 1]);
                assert(b.contains(l));
                assert(a.contains(l));
                let m = choose|m: int| 0 <= m < a.len() && a[m] == l;
                assert(m != 0);
                assert(a1[m - 1] == l);
            }
        }
        lemma_increasing_unique(a1, b1);
        assert(a =~= seq![a[0]] + a1);
        assert(b =~= seq![b[0]] + b1);
    }
}

/// Adds `x` to an increasing sequence of layers, keeping it increasing.
fn insert_layer(v: &mut Vec<u32>, x: u32)
    requires
        strictly_increasing(old(v)@),
    ensures
        strictly_increasing(final(v)@),
        forall|l: u32| #[trigger] final(v)@.contains(l) <==> (old(v)@.contains(l) || l == x),
{
    let mut i: usize = 0;
    while i < v.len() && v[i] < x
        invariant
            i <= v@.len(),
            v@ == old(v)@,
            forall|k: int| 0 <= k < i ==> v@[k] < x,
        decreases v@.len() - i,
    {
        i = i + 1;
    }
    if i < v.len() && v[i] == x {
        assert(v@.contains(x));
        return;
    }
    let ghost before = v@;
    v.insert(i, x);
    assert(v@ =~= before.insert(i as int, x));
    assert forall|a: int, b: int| 0 <= a < b < v@.len() implies v@[a] < v@[b] by {
        if b < i {
        } else if a < i && b == i {
        } else if a < i {
            assert(v@[b] == before[b - 1]);
            assert(before[a] < before[b - 1] || a == b - 1);
            if i < before.len() {
                assert(x < before[i as int]);
            }
        } else if a == i {
            assert(v@[b] == before[b - 1]);
            assert(x < before[i as int]);
            assert(i == b - 1 || before[i as int] < before[b - 1]);
        } else {
            assert(v@[a] == before[a - 1] && v@[b] == before[b - 1]);
        }
    }
    assert forall|l: u32| #[trigger] v@.contains(l) <==> (before.contains(l) || l == x) by {
        if v@.contains(l) {
            let k = choose|k: int| 0 <= k < v@.len() && v@[k] == l;
            if k < i {
                assert(before[k] == l);
            } else if k > i {
                assert(before[k - 1] == l);
            }
        }
        if before.contains(l) {
            let k = choose|k: int| 0 <= k < before.len() && before[k] == l;
            if k < i {
                assert(v@[k] == l);
            } else {
                assert(v@[k + 1] == l);
            }
        }
        if l == x {
            assert(v@[i as int] == x);
        }
    }
}

/// Adds the role's layers of every entry to `v`.
fn collect_role_layers(v: &mut Vec<u32>, entries: &Vec<(String, LayerRange)>, backup: bool)
    requires
        strictly_increasing(old(v)@),
    ensures
        strictly_increasing(final(v)@),
        forall|l: u32| #[trigger]
            final(v)@.contains(l) <==> (old(v)@.contains(l) || hosts_layer(
                entries@.map_values(|e: (String, LayerRange)| entry_view(e)),
                backup,
                l,
            )),
{
    let ghost es = entries@.map_values(|e: (String, LayerRange)| entry_view(e));
    let mut i: usize = 0;
    while i < entries.len()
        invariant
            es == entries@.map_values(|e: (String, LayerRange)| entry_view(e)),
            i <= es.len(),
            strictly_increasing(v@),
            forall|l: u32| #[trigger]
                v@.contains(l) <==> (old(v)@.contains(l) || hosts_layer(es.take(i as int), backup, l)),
        decreases es.len() - i,
    {
        let list = if backup {
            &entries[i].1.backup_layers
        } else {
            &entries[i].1.layers
        };
        assert(list@ == role_list(es[i as int].1, backup));
        assert(es.take(i + 1).drop_last() =~= es.take(i as int));
        assert(es.take(i + 1).last() == es[i as int]);
        let ghost start = v@;
        let mut j: usize = 0;
        while j < list.len()
            invariant
                j <= list@.len(),
                strictly_increasing(v@),
                forall|l: u32| #[trigger] v@.contains(l) <==> (start.contains(l) || list@.take(j as int).contains(l)),
            decreases list@.len() - j,
        {
            insert_layer(v, list[j]);
            assert forall|l: u32| #[trigger] list@.take(j + 1).contains(l) <==> (list@.take(j as int).contains(l)
                || l == list@[j as int]) by {
                if list@.take(j + 1).contains(l) {
                    let k = choose|k: int| 0 <= k < j + 1 && #[trigger] list@.take(j + 1)[k] == l;
                    if k < j {
                        assert(list@.take(j as int)[k] == l);
                    }
                }
                if list@.take(j as int).contains(l) {
                    let k = choose|k: int| 0 <= k < j && #[trigger] list@.take(j as int)[k] == l;
                    assert(list@.take(j + 1)[k] == l);
                }
                if l == list@[j as int] {
                    assert(list@.take(j + 1)[j as int] == l);
                }
            }
            j = j + 1;
        }
        assert(list@.take(j as int) =~= list@);
        i = i + 1;
    }
    assert(es.take(i as int) =~= es);
}

/// The layers either placement holds in the role, in increasing order.
fn role_keys(previous: &LayerDistribution, next: &LayerDistribution, backup: bool) -> (keys: Vec<u32>)
    ensures
        keys@ == role_layers(previous@, next@, backup),
{
    let mut keys: Vec<u32> = Vec::new();
    collect_role_layers(&mut keys, previous.entries(), backup);
    collect_role_layers(&mut keys, next.entries(), backup);
    proof {
        assert(enumerates_layers(keys@, previous@, next@, backup));
        let q = role_layers(previous@, next@, backup);
        assert(enumerates_layers(q, previous@, next@, backup));
        lemma_increasing_unique(keys@, q);
    }
    keys
}

/// The ids of the nodes that hold `layer` in the role, in node-id order.
fn owners_of(entries: &Vec<(String, LayerRange)>, layer: u32, backup: bool) -> (out: Vec<String>)
    ensures
        crate::endpoints::strings_view(out@) == owners(
            entries@.map_values(|e: (String, LayerRange)| entry_view(e)),
            layer,
            backup,
        ),
{
    let ghost es = entries@.map_values(|e: (String, LayerRange)| entry_view(e));
    let mut out: Vec<String> = Vec::new();
    let mut i: usize = 0;
    assert(crate::endpoints::strings_view(out@) =~= owners(es.take(0), layer, backup));
    while i < entries.len()
        invariant
            es == entries@.map_values(|e: (String, LayerRange)| entry_view(e)),
            i <= es.len(),
            crate::endpoints::strings_view(out@) == owners(es.take(i as int), layer, backup),
        decreases es.len() - i,
    {
        let list = if backup {
            &entries[i].1.backup_layers
        } else {
            &entries[i].1.layers
        };
        let id = &entries[i].0;
        assert(list@ == role_list(es[i as int].1, backup));
        assert(id@ == es[i as int].0);
        assert(es.take(i + 1).drop_last() =~= es.take(i as int));
        let ghost base = owners(es.take(i as int), layer, backup);
        let mut j: usize = 0;
        assert(list@.take(0).len() == 0);
        assert(base =~= base + Seq::new(count_of(list@.take(0), layer), |_i: int| id@));
        while j < list.len()
            invariant
                j <= list@.len(),
                crate::endpoints::strings_view(out@) == base + Seq::new(
                    count_of(list@.take(j as int), layer),
                    |_i: int| id@,
                ),
            decreases list@.len() - j,
        {
            assert(list@.take(j + 1).drop_last() =~= list@.take(j as int));
            let ghost before = out@;
            if list[j] == layer {
                out.push(id.clone());
                assert(count_of(list@.take(j + 1), layer) == count_of(list@.take(j as int), layer) + 1);
                assert(crate::endpoints::strings_view(out@) =~= before.map_values(|s: String| s@).push(id@));
                assert(crate::endpoints::strings_view(out@) =~= base + Seq::new(
                    count_of(list@.take(j + 1), layer),
                    |_i: int| id@,
                ));
            } else {
                assert(base + Seq::new(count_of(list@.take(j + 1), layer), |_i: int| id@) =~= base
                    + Seq::new(count_of(list@.take(j as int), layer), |_i: int| id@));
            }
            j = j + 1;
        }
        assert(list@.take(j as int) =~= list@);
        i = i + 1;
    }
    assert(es.take(i as int) =~= es);
    out
}

/// One advisory placement movement. `moving` means a different owner or
/// replica assignment was queued; `considering` means the autonomous planner
/// is reviewing the current one. It is never a lease, a fencing token or a
/// cutover receipt.
#[derive(Clone, Debug)]
pub struct ShardPlacementMovement {
    pub shard_id: String,
    pub source_node: String,
    pub destination_node: String,
    pub role: String,
    pub phase: String,
    pub progress_milli: u32,
    pub reason: String,
    pub updated_at_ms: u64,
}

/// Mathematical value of a [`ShardPlacementMovement`].
pub struct MovementView {
    pub shard_id: Seq<char>,
    pub source_node: Seq<char>,
    pub destination_node: Seq<char>,
    pub role: Seq<char>,
    pub phase: Seq<char>,
    pub progress_milli: u32,
    pub reason: Seq<char>,
    pub updated_at_ms: u64,
}

impl View for ShardPlacementMovement {
    type V = MovementView;

    open spec fn view(&self) -> MovementView {
        MovementView {
            shard_id: self.shard_id@,
            source_node: self.source_node@,
            destination_node: self.destination_node@,
            role: self.role@,
            phase: self.phase@,
            progress_milli: self.progress_milli,
            reason: self.reason@,
            updated_at_ms: self.updated_at_ms,
        }
    }
}

pub open spec fn movements_view(v: Seq<ShardPlacementMovement>) -> Seq<MovementView> {
    v.map_values(|m: ShardPlacementMovement| m@)
}

/// The most movement records one projection reports.
pub open spec fn max_movement_records() -> nat {
    128
}

/// The node at replica slot `i`, or `unassigned`.
pub open spec fn owner_at(owners: Seq<Seq<char>>, i: nat) -> Seq<char> {
    if i < owners.len() {
        owners[i as int]
    } else {
        "unassigned"@
    }
}

/// A slot is reported when its owner changes, or, with automation enabled,
/// when an assigned owner stays.
pub open spec fn movement_kept(source: Seq<char>, destination: Seq<char>, automation_enabled: bool) -> bool {
    source != destination || (automation_enabled && source != "unassigned"@)
}

/// The record for replica slot `replica` of `layer` in a role.
pub open spec fn movement_record(
    network_id: Seq<char>,
    role: Seq<char>,
    layer: u32,
    replica: nat,
    source: Seq<char>,
    destination: Seq<char>,
    reason: Seq<char>,
    updated_at_ms: u64,
) -> MovementView {
    let changed = source != destination;
    MovementView {
        shard_id: network_id + ":"@ + role + ":layer-"@ + decimal_spec(layer as nat) + ":replica-"@
            + decimal_spec(replica),
        source_node: source,
        destination_node: if changed {
            destination
        } else {
            Seq::empty()
        },
        role,
        phase: if changed {
            "moving"@
        } else {
            "considering"@
        },
        progress_milli: 0,
        reason: if trim(reason).len() == 0 {
            if changed {
                "placement assignment changed"@
            } else {
                "autonomous placement review"@
            }
        } else {
            reason
        },
        updated_at_ms,
    }
}

/// The records of the first `n` replica slots of `layer` in a role.
pub open spec fn layer_movements(
    network_id: Seq<char>,
    role: Seq<char>,
    layer: u32,
    old_owners: Seq<Seq<char>>,
    new_owners: Seq<Seq<char>>,
    automation_enabled: bool,
    reason: Seq<char>,
    updated_at_ms: u64,
    n: nat,
) -> Seq<MovementView>
    decreases n,
{
    if n == 0 {
        Seq::empty()
    } else {
        let before = layer_movements(
            network_id,
            role,
            layer,
            old_owners,
            new_owners,
            automation_enabled,
            reason,
            updated_at_ms,
            (n - 1) as nat,
        );
        let source = owner_at(old_owners, (n - 1) as nat);
        let destination = owner_at(new_owners, (n - 1) as nat);
        if movement_kept(source, destination, automation_enabled) {
            before.push(
                movement_record(network_id, role, layer, (n - 1) as nat, source, destination, reason, updated_at_ms),
            )
        } else {
            before
        }
    }
}

pub open spec fn slot_width(a: Seq<Seq<char>>, b: Seq<Seq<char>>) -> nat {
    if a.len() >= b.len() {
        a.len()
    } else {
        b.len()
    }
}

/// The records of a role over `keys`, layer after layer.
pub open spec fn role_movements(
    network_id: Seq<char>,
    role: Seq<char>,
    keys: Seq<u32>,
    previous: Seq<(Seq<char>, LayerRangeView)>,
    next: Seq<(Seq<char>, LayerRangeView)>,
    backup: bool,
    automation_enabled: bool,
    reason: Seq<char>,
    updated_at_ms: u64,
) -> Seq<MovementView>
    decreases keys.len(),
{
    if keys.len() == 0 {
        Seq::empty()
    } else {
        let layer = keys.last();
        let old_owners = owners(previous, layer, backup);
        let new_owners = owners(next, layer, backup);
        role_movements(
            network_id,
            role,
            keys.drop_last(),
            previous,
            next,
            backup,
            automation_enabled,
            reason,
            updated_at_ms,
        ) + layer_movements(
            network_id,
            role,
            layer,
            old_owners,
            new_owners,
            automation_enabled,
            reason,
            updated_at_ms,
            slot_width(old_owners, new_owners),
        )
    }
}

/// The movement telemetry between two placements: active records, then backup
/// records, each by increasing layer and replica slot, at most
/// [`max_movement_records`] of them.
pub open spec fn placement_movements(
    network_id: Seq<char>,
    previous: Seq<(Seq<char>, LayerRangeView)>,
    next: Seq<(Seq<char>, LayerRangeView)>,
    automation_enabled: bool,
    reason: Seq<char>,
    updated_at_ms: u64,
) -> Seq<MovementView> {
    let all = role_movements(
        network_id,
        "active"@,
        role_layers(previous, next, false),
        previous,
        next,
        false,
        automation_enabled,
        reason,
        updated_at_ms,
    ) + role_movements(
        network_id,
        "backup"@,
        role_layers(previous, next, true),
        previous,
        next,
        true,
        automation_enabled,
        reason,
        updated_at_ms,
    );
    if all.len() > max_movement_records() {
        all.take(max_movement_records() as int)
    } else {
        all
    }
}

fn owner_at_slot(owners: &Vec<String>, i: usize) -> (r: String)
    ensures
        r@ == owner_at(crate::endpoints::strings_view(owners@), i as nat),
{
    if i < owners.len() {
        owners[i].clone()
    } else {
        String::from_str("unassigned")
    }
}

fn make_movement(
    network_id: &str,
    role: &str,
    layer: u32,
    replica: usize,
    source: String,
    destination: String,
    reason: &str,
    reason_blank: bool,
    updated_at_ms: u64,
) -> (m: ShardPlacementMovement)
    requires
        reason_blank == (trim(reason@).len() == 0),
    ensures
        m@ == movement_record(network_id@, role@, layer, replica as nat, source@, destination@, reason@, updated_at_ms),
{
    proof {
        reveal_strlit(":");
        reveal_strlit(":layer-");
        reveal_strlit(":replica-");
        reveal_strlit("moving");
        reveal_strlit("considering");
        reveal_strlit("placement assignment changed");
        reveal_strlit("autonomous placement review");
    }
    let changed = !(source == destination);
    let mut shard_id = String::from_str(network_id);
    shard_id.append(":");
    shard_id.append(role);
    shard_id.append(":layer-");
    let l = decimal(layer as u64);
    shard_id.append(l.as_str());
    shard_id.append(":replica-");
    let r = decimal(replica as u64);
    shard_id.append(r.as_str());
    let phase = if changed {
        String::from_str("moving")
    } else {
        String::from_str("considering")
    };
    let text = if reason_blank {
        if changed {
            String::from_str("placement assignment changed")
        } else {
            String::from_str("autonomous placement review")
        }
    } else {
        String::from_str(reason)
    };
    let reported = if changed {
        destination
    } else {
        String::new()
    };
    ShardPlacementMovement {
        shard_id,
        source_node: source,
        destination_node: reported,
        role: String::from_str(role),
        phase,
        progress_milli: 0,
        reason: text,
        updated_at_ms,
    }
}

fn push_layer_movements(
    out: &mut Vec<ShardPlacementMovement>,
    network_id: &str,
    role: &str,
    layer: u32,
    old_owners: &Vec<String>,
    new_owners: &Vec<String>,
    automation_enabled: bool,
    reason: &str,
    reason_blank: bool,
    updated_at_ms: u64,
)
    requires
        reason_blank == (trim(reason@).len() == 0),
    ensures
        movements_view(final(out)@) == movements_view(old(out)@) + layer_movements(
            network_id@,
            role@,
            layer,
            crate::endpoints::strings_view(old_owners@),
            crate::endpoints::strings_view(new_owners@),
            automation_enabled,
            reason@,
            updated_at_ms,
            slot_width(crate::endpoints::strings_view(old_owners@), crate::endpoints::strings_view(new_owners@)),
        ),
{
    proof {
        reveal_strlit("unassigned");
    }
    let ghost olds = crate::endpoints::strings_view(old_owners@);
    let ghost news = crate::endpoints::strings_view(new_owners@);
    let width = if old_owners.len() >= new_owners.len() {
        old_owners.len()
    } else {
        new_owners.len()
    };
    let ghost start = movements_view(out@);
    let mut i: usize = 0;
    assert(start =~= start + layer_movements(
        network_id@,
        role@,
        layer,
        olds,
        news,
        automation_enabled,
        reason@,
        updated_at_ms,
        0,
    ));
    while i < width
        invariant
            i <= width,
            width == slot_width(olds, news),
            olds == crate::endpoints::strings_view(old_owners@),
            news == crate::endpoints::strings_view(new_owners@),
            reason_blank == (trim(reason@).len() == 0),
            start == movements_view(old(out)@),
            movements_view(out@) == start + layer_movements(
                network_id@,
                role@,
                layer,
                olds,
                news,
                automation_enabled,
                reason@,
                updated_at_ms,
                i as nat,
            ),
        decreases width - i,
    {
        let source = owner_at_slot(old_owners, i);
        let destination = owner_at_slot(new_owners, i);
        let changed = !(source == destination);
        let unassigned = String::from_str("unassigned");
        let keep = changed || (automation_enabled && !(source == unassigned));
        let ghost before = out@;
        if keep {
            let m = make_movement(
                network_id,
                role,
                layer,
                i,
                source,
                destination,
                reason,
                reason_blank,
                updated_at_ms,
            );
            out.push(m);
            assert(movements_view(out@) =~= movements_view(before).push(m@));
        }
        i = i + 1;
    }
}

fn push_role_movements(
    out: &mut Vec<ShardPlacementMovement>,
    network_id: &str,
    role: &str,
    keys: &Vec<u32>,
    previous: &LayerDistribution,
    next: &LayerDistribution,
    backup: bool,
    automation_enabled: bool,
    reason: &str,
    reason_blank: bool,
    updated_at_ms: u64,
)
    requires
        reason_blank == (trim(reason@).len() == 0),
    ensures
        movements_view(final(out)@) == movements_view(old(out)@) + role_movements(
            network_id@,
            role@,
            keys@,
            previous@,
            next@,
            backup,
            automation_enabled,
            reason@,
            updated_at_ms,
        ),
{
    let ghost start = movements_view(out@);
    let mut k: usize = 0;
    assert(keys@.take(0) =~= Seq::<u32>::empty());
    assert(start =~= start + role_movements(
        network_id@,
        role@,
        keys@.take(0),
        previous@,
        next@,
        backup,
        automation_enabled,
        reason@,
        updated_at_ms,
    ));
    while k < keys.len()
        invariant
            k <= keys@.len(),
            reason_blank == (trim(reason@).len() == 0),
            start == movements_view(old(out)@),
            movements_view(out@) == start + role_movements(
                network_id@,
                role@,
                keys@.take(k as int),
                previous@,
                next@,
                backup,
                automation_enabled,
                reason@,
                updated_at_ms,
            ),
        decreases keys@.len() - k,
    {
        let layer = keys[k];
        let old_owners = owners_of(previous.entries(), layer, backup);
        let new_owners = owners_of(next.entries(), layer, backup);
        let ghost before = movements_view(out@);
        push_layer_movements(
            out,
            network_id,
            role,
            layer,
            &old_owners,
            &new_owners,
            automation_enabled,
            reason,
            reason_blank,
            updated_at_ms,
        );
        assert(keys@.take(k + 1).drop_last() =~= keys@.take(k as int));
        assert(keys@.take(k + 1).last() == layer);
        k = k + 1;
    }
    assert(keys@.take(k as int) =~= keys@);
}

/// Builds bounded, deterministic placement telemetry from two placement
/// projections of `network_id`: for each role (active, then backup), each
/// layer either placement holds (in increasing order), and each replica slot,
/// a `moving` record when the slot's owner changes and, with automation
/// enabled, a `considering` record when an assigned owner stays.
pub fn build_shard_placement_movements(
    network_id: &str,
    previous: &LayerDistribution,
    next: &LayerDistribution,
    automation_enabled: bool,
    reason: &str,
    updated_at_ms: u64,
) -> (out: Vec<ShardPlacementMovement>)
    ensures
        movements_view(out@) == placement_movements(
            network_id@,
            previous@,
            next@,
            automation_enabled,
            reason@,
            updated_at_ms,
        ),
{
    proof {
        reveal_strlit("active");
        reveal_strlit("backup");
    }
    let chars = chars_of(reason);
    let n = chars.len();
    let (a, b) = trim_bounds(&chars, 0, n);
    assert(chars@.subrange(0, n as int) =~= reason@);
    let reason_blank = a == b;
    let mut out: Vec<ShardPlacementMovement> = Vec::new();
    let active_keys = role_keys(previous, next, false);
    push_role_movements(
        &mut out,
        network_id,
        "active",
        &active_keys,
        previous,
        next,
        false,
        automation_enabled,
        reason,
        reason_blank,
        updated_at_ms,
    );
    let backup_keys = role_keys(previous, next, true);
    push_role_movements(
        &mut out,
        network_id,
        "backup",
        &backup_keys,
        previous,
        next,
        true,
        automation_enabled,
        reason,
        reason_blank,
        updated_at_ms,
    );
    let ghost all = movements_view(out@);
    out.truncate(128);
    proof {
        if all.len() > 128 {
            assert(movements_view(out@) =~= all.take(128));
        } else {
            assert(movements_view(out@) =~= all);
        }
    }
    out
}

proof fn lemma_layer_unchanged(
    network_id: Seq<char>,
    role: Seq<char>,
    layer: u32,
    owners: Seq<Seq<char>>,
    automation_enabled: bool,
    reason: Seq<char>,
    updated_at_ms: u64,
    n: nat,
)
    ensures
        ({
            let ms = layer_movements(
                network_id,
                role,
                layer,
                owners,
                owners,
                automation_enabled,
                reason,
                updated_at_ms,
                n,
            );
            &&& forall|i: int| 0 <= i < ms.len() ==> (#[trigger] ms[i]).phase == "considering"@
            &&& !automation_enabled ==> ms.len() == 0
        }),
    decreases n,
{
    if n > 0 {
        let m = (n - 1) as nat;
        lemma_layer_unchanged(network_id, role, layer, owners, automation_enabled, reason, updated_at_ms, m);
        let before = layer_movements(network_id, role, layer, owners, owners, automation_enabled, reason, updated_at_ms, m);
        let ms = layer_movements(network_id, role, layer, owners, owners, automation_enabled, reason, updated_at_ms, n);
        let src = owner_at(owners, m);
        if movement_kept(src, src, automation_enabled) {
            let rec = movement_record(network_id, role, layer, m, src, src, reason, updated_at_ms);
            assert(ms == before.push(rec));
            assert(rec.phase == "considering"@);
            assert forall|i: int| 0 <= i < ms.len() implies (#[trigger] ms[i]).phase == "considering"@ by {
                if i < before.len() {
                    assert(ms[i] == before[i]);
                }
            }
        } else {
            assert(ms == before);
        }
    }
}

proof fn lemma_role_unchanged(
    network_id: Seq<char>,
    role: Seq<char>,
    keys: Seq<u32>,
    placement: Seq<(Seq<char>, LayerRangeView)>,
    backup: bool,
    automation_enabled: bool,
    reason: Seq<char>,
    updated_at_ms: u64,
)
    ensures
        ({
            let ms = role_movements(
                network_id,
                role,
                keys,
                placement,
                placement,
                backup,
                automation_enabled,
                reason,
                updated_at_ms,
            );
            &&& forall|i: int| 0 <= i < ms.len() ==> (#[trigger] ms[i]).phase == "considering"@
            &&& !automation_enabled ==> ms.len() == 0
        }),
    decreases keys.len(),
{
    if keys.len() > 0 {
        let layer = keys.last();
        let o = owners(placement, layer, backup);
        lemma_role_unchanged(
            network_id,
            role,
            keys.drop_last(),
            placement,
            backup,
            automation_enabled,
            reason,
            updated_at_ms,
        );
        lemma_layer_unchanged(network_id, role, layer, o, automation_enabled, reason, updated_at_ms, slot_width(o, o));
        let a = role_movements(
            network_id,
            role,
            keys.drop_last(),
            placement,
            placement,
            backup,
            automation_enabled,
            reason,
            updated_at_ms,
        );
        let b = layer_movements(network_id, role, layer, o, o, automation_enabled, reason, updated_at_ms, slot_width(o, o));
        assert forall|i: int| 0 <= i < (a + b).len() implies (#[trigger] (a + b)[i]).phase == "considering"@ by {
            if i < a.len() {
                assert((a + b)[i] == a[i]);
            } else {
                assert((a + b)[i] == b[i - a.len()]);
            }
        }
    }
}

/// A placement compared with itself reports no movement: without automation
/// there is no record at all, and with it every record is `considering`.
pub proof fn lemma_unchanged_placement_only_considers(
    network_id: Seq<char>,
    placement: Seq<(Seq<char>, LayerRangeView)>,
    automation_enabled: bool,
    reason: Seq<char>,
    updated_at_ms: u64,
)
    ensures
        ({
            let ms = placement_movements(network_id, placement, placement, automation_enabled, reason, updated_at_ms);
            &&& forall|i: int| 0 <= i < ms.len() ==> (#[trigger] ms[i]).phase == "considering"@
            &&& !automation_enabled ==> ms.len() == 0
        }),
{
    let ka = role_layers(placement, placement, false);
    let kb = role_layers(placement, placement, true);
    lemma_role_unchanged(network_id, "active"@, ka, placement, false, automation_enabled, reason, updated_at_ms);
    lemma_role_unchanged(network_id, "backup"@, kb, placement, true, automation_enabled, reason, updated_at_ms);
    let a = role_movements(network_id, "active"@, ka, placement, placement, false, automation_enabled, reason, updated_at_ms);
    let b = role_movements(network_id, "backup"@, kb, placement, placement, true, automation_enabled, reason, updated_at_ms);
    let all = a + b;
    assert forall|i: int| 0 <= i < all.len() implies (#[trigger] all[i]).phase == "considering"@ by {
        if i < a.len() {
            assert(all[i] == a[i]);
        } else {
            assert(all[i] == b[i - a.len()]);
        }
    }
    let ms = placement_movements(network_id, placement, placement, automation_enabled, reason, updated_at_ms);
    assert forall|i: int| 0 <= i < ms.len() implies (#[trigger] ms[i]).phase == "considering"@ by {
        assert(ms[i] == all[i]);
    }
}

proof fn lemma_layer_only_moves(
    network_id: Seq<char>,
    role: Seq<char>,
    layer: u32,
    old_owners: Seq<Seq<char>>,
    new_owners: Seq<Seq<char>>,
    reason: Seq<char>,
    updated_at_ms: u64,
    n: nat,
)
    ensures
        ({
            let ms = layer_movements(network_id, role, layer, old_owners, new_owners, false, reason, updated_at_ms, n);
            forall|i: int| 0 <= i < ms.len() ==> (#[trigger] ms[i]).phase == "moving"@ && ms[i].source_node
                != ms[i].destination_node
        }),
    decreases n,
{
    if n > 0 {
        let m = (n - 1) as nat;
        lemma_layer_only_moves(network_id, role, layer, old_owners, new_owners, reason, updated_at_ms, m);
        let before = layer_movements(network_id, role, layer, old_owners, new_owners, false, reason, updated_at_ms, m);
        let ms = layer_movements(network_id, role, layer, old_owners, new_owners, false, reason, updated_at_ms, n);
        let src = owner_at(old_owners, m);
        let dst = owner_at(new_owners, m);
        if movement_kept(src, dst, false) {
            let rec = movement_record(network_id, role, layer, m, src, dst, reason, updated_at_ms);
            assert(ms == before.push(rec));
            assert forall|i: int| 0 <= i < ms.len() implies (#[trigger] ms[i]).phase == "moving"@
                && ms[i].source_node != ms[i].destination_node by {
                if i < before.len() {
                    assert(ms[i] == before[i]);
                }
            }
        } else {
            assert(ms == before);
        }
    }
}

proof fn lemma_role_only_moves(
    network_id: Seq<char>,
    role: Seq<char>,
    keys: Seq<u32>,
    previous: Seq<(Seq<char>, LayerRangeView)>,
    next: Seq<(Seq<char>, LayerRangeView)>,
    backup: bool,
    reason: Seq<char>,
    updated_at_ms: u64,
)
    ensures
        ({
            let ms = role_movements(network_id, role, keys, previous, next, backup, false, reason, updated_at_ms);
            forall|i: int| 0 <= i < ms.len() ==> (#[trigger] ms[i]).phase == "moving"@ && ms[i].source_node
                != ms[i].destination_node
        }),
    decreases keys.len(),
{
    if keys.len() > 0 {
        let layer = keys.last();
        let o = owners(previous, layer, backup);
        let w = owners(next, layer, backup);
        lemma_role_only_moves(network_id, role, keys.drop_last(), previous, next, backup, reason, updated_at_ms);
        lemma_layer_only_moves(network_id, role, layer, o, w, reason, updated_at_ms, slot_width(o, w));
        let a = role_movements(network_id, role, keys.drop_last(), previous, next, backup, false, reason, updated_at_ms);
        let b = layer_movements(network_id, role, layer, o, w, false, reason, updated_at_ms, slot_width(o, w));
        assert forall|i: int| 0 <= i < (a + b).len() implies (#[trigger] (a + b)[i]).phase == "moving"@
            && (a + b)[i].source_node != (a + b)[i].destination_node by {
            if i < a.len() {
                assert((a + b)[i] == a[i]);
            } else {
                assert((a + b)[i] == b[i - a.len()]);
            }
        }
    }
}

/// Without automation every record reports a real move: its phase is
/// `moving` and its source differs from its destination.
pub proof fn lemma_without_automation_only_moves(
    network_id: Seq<char>,
    previous: Seq<(Seq<char>, LayerRangeView)>,
    next: Seq<(Seq<char>, LayerRangeView)>,
    reason: Seq<char>,
    updated_at_ms: u64,
)
    ensures
        ({
            let ms = placement_movements(network_id, previous, next, false, reason, updated_at_ms);
            forall|i: int| 0 <= i < ms.len() ==> (#[trigger] ms[i]).phase == "moving"@ && ms[i].source_node
                != ms[i].destination_node
        }),
{
    let ka = role_layers(previous, next, false);
    let kb = role_layers(previous, next, true);
    lemma_role_only_moves(network_id, "active"@, ka, previous, next, false, reason, updated_at_ms);
    lemma_role_only_moves(network_id, "backup"@, kb, previous, next, true, reason, updated_at_ms);
    let a = role_movements(network_id, "active"@, ka, previous, next, false, false, reason, updated_at_ms);
    let b = role_movements(network_id, "backup"@, kb, previous, next, true, false, reason, updated_at_ms);
    let all = a + b;
    assert forall|i: int| 0 <= i < all.len() implies (#[trigger] all[i]).phase == "moving"@
        && all[i].source_node != all[i].destination_node by {
        if i < a.len() {
            assert(all[i] == a[i]);
        } else {
            assert(all[i] == b[i - a.len()]);
        }
    }
    let ms = placement_movements(network_id, previous, next, false, reason, updated_at_ms);
    assert forall|i: int| 0 <= i < ms.len() implies (#[trigger] ms[i]).phase == "moving"@
        && ms[i].source_node != ms[i].destination_node by {
        assert(ms[i] == all[i]);
    }
}

/// The order of strings is transitive.
pub proof fn lemma_str_lt_trans(a: Seq<char>, b: Seq<char>, c: Seq<char>)
    requires
        str_lt(a, b),
        str_lt(b, c),
    ensures
        str_lt(a, c),
    decreases a.len(),
{
    if a.len() > 0 && b.len() > 0 && c.len() > 0 && a[0] == b[0] && b[0] == c[0] {
        lemma_str_lt_trans(a.drop_first(), b.drop_first(), c.drop_first());
    }
}

/// Along increasing entries, every earlier id precedes every later one.
pub proof fn lemma_ids_ordered(es: Seq<(Seq<char>, LayerRangeView)>, a: int, b: int)
    requires
        ids_increasing(es),
        0 <= a < b < es.len(),
    ensures
        str_lt(es[a].0, es[b].0),
    decreases b - a,
{
    if b - a > 1 {
        lemma_ids_ordered(es, a + 1, b);
        lemma_str_lt_trans(es[a].0, es[a + 1].0, es[b].0);
    }
}

/// The smallest layer listed, or `u32::MAX` when none is.
pub open spec fn min_layer(s: Seq<u32>) -> u32
    decreases s.len(),
{
    if s.len() == 0 {
        u32::MAX
    } else {
        let m = min_layer(s.drop_last());
        if s.last() < m {
            s.last()
        } else {
            m
        }
    }
}

/// `a` ranks below `b` as the primary node of a placement: it runs fewer
/// active layers, or as many starting at a later layer, or is tied and has
/// the smaller id.
pub open spec fn ranks_below(a: (Seq<char>, LayerRangeView), b: (Seq<char>, LayerRangeView)) -> bool {
    a.1.layers.len() < b.1.layers.len() || (a.1.layers.len() == b.1.layers.len() && (min_layer(a.1.layers)
        > min_layer(b.1.layers) || (min_layer(a.1.layers) == min_layer(b.1.layers) && str_lt(a.0, b.0))))
}

/// The entry at `i` outranks every other entry.
pub open spec fn is_primary(es: Seq<(Seq<char>, LayerRangeView)>, i: int) -> bool {
    0 <= i < es.len() && forall|j: int| 0 <= j < es.len() && j != i ==> ranks_below(#[trigger] es[j], es[i])
}

fn min_layer_of(v: &Vec<u32>) -> (m: u32)
    ensures
        m == min_layer(v@),
{
    let mut m: u32 = u32::MAX;
    let mut i: usize = 0;
    assert(v@.take(0) =~= Seq::<u32>::empty());
    while i < v.len()
        invariant
            i <= v@.len(),
            m == min_layer(v@.take(i as int)),
        decreases v@.len() - i,
    {
        assert(v@.take(i + 1).drop_last() =~= v@.take(i as int));
        if v[i] < m {
            m = v[i];
        }
        i = i + 1;
    }
    assert(v@.take(i as int) =~= v@);
    m
}

/// The node that anchors a placement: the one running the most active
/// layers, then the one starting at the lowest layer, then the greatest id.
pub fn primary_node_for_distribution(distribution: &LayerDistribution) -> (r: Option<String>)
    requires
        distribution.wf(),
    ensures
        r is None <==> distribution@.len() == 0,
        r matches Some(id) ==> exists|i: int| is_primary(distribution@, i) && distribution@[i].0 == id@,
{
    let entries = distribution.entries();
    let ghost es = distribution@;
    if entries.len() == 0 {
        return None;
    }
    assert(es[0] == entry_view(entries@[0]));
    let mut best: usize = 0;
    let mut best_len = entries[0].1.layers.len();
    let mut best_min = min_layer_of(&entries[0].1.layers);
    let mut i: usize = 1;
    while i < entries.len()
        invariant
            es == entries@.map_values(|e: (String, LayerRange)| entry_view(e)),
            ids_increasing(es),
            1 <= i <= es.len(),
            best < i,
            best_len == es[best as int].1.layers.len(),
            best_min == min_layer(es[best as int].1.layers),
            forall|j: int| 0 <= j < i && j != best ==> ranks_below(#[trigger] es[j], es[best as int]),
        decreases es.len() - i,
    {
        assert(es[i as int] == entry_view(entries@[i as int]));
        let len = entries[i].1.layers.len();
        let mn = min_layer_of(&entries[i].1.layers);
        proof {
            lemma_ids_ordered(es, best as int, i as int);
        }
        if len > best_len || (len == best_len && mn <= best_min) {
            proof {
                assert(ranks_below(es[best as int], es[i as int]));
                assert forall|j: int| 0 <= j < i + 1 && j != i implies ranks_below(#[trigger] es[j], es[i as int]) by {
                    if j != best {
                        assert(ranks_below(es[j], es[best as int]));
                        if j < best {
                            lemma_ids_ordered(es, j, best as int);
                        }
                        lemma_ids_ordered(es, j, i as int);
                    }
                }
            }
            best = i;
            best_len = len;
            best_min = mn;
        } else {
            assert(ranks_below(es[i as int], es[best as int]));
        }
        i = i + 1;
    }
    assert(is_primary(es, best as int));
    Some(entries[best].0.clone())
}

/// No string precedes itself.
pub proof fn lemma_str_lt_irreflexive(a: Seq<char>)
    ensures
        !str_lt(a, a),
    decreases a.len(),
{
    if a.len() > 0 {
        lemma_str_lt_irreflexive(a.drop_first());
    }
}

/// Filtering out exactly the element at `i` removes it.
pub proof fn lemma_filter_all_but<A>(s: Seq<A>, p: spec_fn(A) -> bool, i: int)
    requires
        0 <= i < s.len(),
        !p(s[i]),
        forall|j: int| 0 <= j < s.len() && j != i ==> p(#[trigger] s[j]),
    ensures
        s.filter(p) == s.remove(i),
    decreases s.len(),
{
    let d = s.drop_last();
    d.lemma_filter_push(s.last(), p);
    assert(s == d.push(s.last()));
    if i == s.len() - 1 {
        lemma_filter_all(d, p);
        assert(s.remove(i) =~= d);
    } else {
        assert forall|j: int| 0 <= j < d.len() && j != i implies p(#[trigger] d[j]) by {
            assert(d[j] == s[j]);
        }
        lemma_filter_all_but(d, p, i);
        assert(s.remove(i) =~= d.remove(i).push(s.last()));
    }
}

/// Filtering by a predicate every element meets changes nothing.
pub proof fn lemma_filter_all<A>(s: Seq<A>, p: spec_fn(A) -> bool)
    requires
        forall|j: int| 0 <= j < s.len() ==> p(#[trigger] s[j]),
    ensures
        s.filter(p) == s,
    decreases s.len(),
{
    if s.len() > 0 {
        let d = s.drop_last();
        d.lemma_filter_push(s.last(), p);
        assert forall|j: int| 0 <= j < d.len() implies p(#[trigger] d[j]) by {
            assert(d[j] == s[j]);
        }
        lemma_filter_all(d, p);
        assert(s =~= d.push(s.last()));
    } else {
        reveal(Seq::filter);
        assert(s.filter(p) =~= s);
    }
}

/// Entries of nodes other than `id`.
pub open spec fn other_node(id: Seq<char>) -> spec_fn((Seq<char>, LayerRangeView)) -> bool {
    |e: (Seq<char>, LayerRangeView)| e.0 != id
}

impl LayerDistribution {
    /// Takes `node_id` out of the placement; the other nodes keep their
    /// ranges and their order.
    pub fn remove_node(&mut self, node_id: &str)
        requires
            old(self).wf(),
        ensures
            final(self).wf(),
            final(self)@ == old(self)@.filter(other_node(node_id@)),
    {
        let ghost es = self@;
        let target = String::from_str(node_id);
        let mut i: usize = 0;
        while i < self.entries.len()
            invariant
                es == self@,
                es == old(self)@,
                ids_increasing(es),
                i <= es.len(),
                forall|k: int| 0 <= k < i ==> (#[trigger] es[k]).0 != node_id@,
                target@ == node_id@,
            decreases es.len() - i,
        {
            assert(es[i as int] == entry_view(self.entries@[i as int]));
            if self.entries[i].0 == target {
                assert(es[i as int].0 == node_id@);
                proof {
                    assert forall|j: int| 0 <= j < es.len() && j != i implies (#[trigger] es[j]).0 != node_id@ by {
                        if j > i {
                            lemma_ids_ordered(es, i as int, j);
                            if es[j].0 == node_id@ {
                                lemma_str_lt_irreflexive(es[j].0);
                            }
                        }
                    }
                    lemma_filter_all_but(es, other_node(node_id@), i as int);
                }
                self.entries.remove(i);
                proof {
                    assert(self@ =~= es.remove(i as int));
                    let now = self@;
                    assert forall|k: int| 0 <= k < now.len() - 1 implies str_lt(#[trigger] now[k].0, now[k + 1].0) by {
                        if k < i - 1 {
                            assert(now[k] == es[k] && now[k + 1] == es[k + 1]);
                        } else if k == i - 1 {
                            assert(now[k] == es[k] && now[k + 1] == es[k + 2]);
                            lemma_ids_ordered(es, k, k + 2);
                        } else {
                            assert(now[k] == es[k + 1] && now[k + 1] == es[k + 2]);
                        }
                    }
                }
                return;
            }
            i = i + 1;
        }
        proof {
            lemma_filter_all(es, other_node(node_id@));
        }
    }
}

pub open spec fn entries_view(v: Seq<(String, LayerRange)>) -> Seq<(Seq<char>, LayerRangeView)> {
    v.map_values(|e: (String, LayerRange)| entry_view(e))
}

/// Entries whose key is not listed in `drop`.
pub open spec fn unlisted<V>(drop: Seq<Seq<char>>) -> spec_fn((Seq<char>, V)) -> bool {
    |e: (Seq<char>, V)| !drop.contains(e.0)
}

/// Whether `id` is listed.
pub fn listed(drop: &Vec<String>, id: &String) -> (r: bool)
    ensures
        r == crate::endpoints::strings_view(drop@).contains(id@),
{
    let ghost d = crate::endpoints::strings_view(drop@);
    let mut i: usize = 0;
    while i < drop.len()
        invariant
            d == crate::endpoints::strings_view(drop@),
            i <= drop@.len(),
            forall|k: int| 0 <= k < i ==> d[k] != id@,
        decreases drop@.len() - i,
    {
        if drop[i] == *id {
            assert(d[i as int] == id@);
            return true;
        }
        i = i + 1;
    }
    false
}

impl LayerDistribution {
    /// Takes every listed node out of the placement; the other nodes keep
    /// their ranges and their order.
    pub fn retain_unlisted(&mut self, drop: &Vec<String>)
        requires
            old(self).wf(),
        ensures
            final(self).wf(),
            final(self)@ == old(self)@.filter(unlisted(crate::endpoints::strings_view(drop@))),
    {
        let ghost es = self@;
        let ghost d = crate::endpoints::strings_view(drop@);
        let total = self.entries.len();
        let mut rest: Vec<(String, LayerRange)> = Vec::new();
        core::mem::swap(&mut rest, &mut self.entries);
        assert(entries_view(rest@) == es);
        let mut n: usize = 0;
        let ghost mut last: int = -1;
        assert(es.take(0) =~= Seq::<(Seq<char>, LayerRangeView)>::empty());
        proof {
            reveal(Seq::filter);
        }
        assert(self@ =~= es.take(0).filter(unlisted(d)));
        while rest.len() > 0
            invariant
                es == old(self)@,
                ids_increasing(es),
                d == crate::endpoints::strings_view(drop@),
                es.len() == total,
                n <= es.len(),
                entries_view(rest@) == es.skip(n as int),
                self@ == es.take(n as int).filter(unlisted(d)),
                ids_increasing(self@),
                -1 <= last < n,
                self@.len() > 0 ==> last >= 0 && self@.last() == es[last],
            decreases rest@.len(),
        {
            let ghost rv = rest@;
            assert(entries_view(rv).len() == rv.len());
            assert(n < es.len());
            assert(es.skip(n as int)[0] == entry_view(rv[0]));
            let e = rest.remove(0);
            let ghost ev = entry_view(e);
            assert(e == rv[0]);
            assert(ev == entry_view(rv[0]));
            assert(es.skip(n as int)[0] == es[n as int]);
            assert(ev == es[n as int]);
            assert(rest@ =~= rv.subrange(1, rv.len() as int));
            proof {
                let m = entries_view(rest@);
                let mv = entries_view(rv);
                assert forall|k: int| 0 <= k < m.len() implies #[trigger] m[k] == es.skip(n + 1)[k] by {
                    assert(rest@[k] == rv[k + 1]);
                    assert(mv[k + 1] == es.skip(n as int)[k + 1]);
                }
                assert(m =~= es.skip(n + 1));
            }
            let ghost before = self@;
            proof {
                assert(es.take(n + 1) =~= es.take(n as int).push(ev));
                es.take(n as int).lemma_filter_push(ev, unlisted(d));
            }
            if !listed(drop, &e.0) {
                self.entries.push(e);
                proof {
                    assert(self@ =~= before.push(ev));
                    if before.len() > 0 {
                        lemma_ids_ordered(es, last, n as int);
                    }
                    assert forall|k: int| 0 <= k < self@.len() - 1 implies str_lt(#[trigger] self@[k].0, self@[k + 1].0) by {
                        if k < before.len() - 1 {
                            assert(self@[k] == before[k] && self@[k + 1] == before[k + 1]);
                        } else {
                            assert(self@[k] == before.last());
                        }
                    }
                    last = n as int;
                }
            }
            n = n + 1;
        }
        assert(es.take(n as int) =~= es);
    }
}

} // verus!
