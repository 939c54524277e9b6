use vstd::prelude::*;

use crate::addr::ClientAddr;
use crate::message::{
    build_envelope, effective_cluster_names, envelope_spec, gathered_instances, gz_encode,
    gz_spec, healthy_filter, render_instance_list, render_spec,
};
use crate::naming::{inst_views, Instance, InstanceTable, InstanceView, ServiceKey, ServiceKeyView};
use crate::search::{find_first, lemma_find_first_at, lemma_find_first_pointwise, lemma_find_first_props};
use crate::strutil::{
    join_comma, join_strings_comma, sort_strings, sort_strs, str_views,
};
use crate::timer::{expiry_sorted, first_after, TimeoutSet, TimerEntryView};
use vstd::utf8::encode_utf8;

verus! {

// ---------------------------------------------------------------------------
// Subscription entries.
// ---------------------------------------------------------------------------

/// The canonical cache key of a cluster filter: the cluster names sorted
/// and joined with commas.
pub open spec fn cluster_key_of(clusters: Seq<Seq<char>>) -> Seq<char> {
    join_comma(sort_strs(clusters))
}

/// The cache key is canonical: two filters that name the same clusters,
/// in any order, get the same cache key.
pub proof fn lemma_cluster_key_canonical(c1: Seq<Seq<char>>, c2: Seq<Seq<char>>)
    requires
        c1.to_multiset() == c2.to_multiset(),
    ensures
        cluster_key_of(c1) == cluster_key_of(c2),
{
    crate::strutil::lemma_sort_strs_canonical(c1, c2);
}

/// Computes the canonical cache key of a cluster filter.
pub fn gene_cluster_key(clusters: Vec<String>) -> (r: String)
    ensures
        r@ == cluster_key_of(str_views(clusters@)),
{
    let sorted = sort_strings(clusters);
    join_strings_comma(&sorted)
}

/// Copies a list of strings.
fn clone_strings(v: &Vec<String>) -> (r: Vec<String>)
    ensures
        r@ == v@,
{
    let mut r: Vec<String> = Vec::new();
    let mut i: usize = 0;
    while i < v.len()
        invariant
            i <= v@.len(),
            r@ == v@.subrange(0, i as int),
        decreases v@.len() - i,
    {
        r.push(v[i].clone());
        proof {
            assert(r@ =~= v@.subrange(0, i + 1));
        }
        i = i + 1;
    }
    proof {
        assert(v@.subrange(0, v@.len() as int) =~= v@);
    }
    r
}

/// Copies a byte string.
fn clone_bytes(v: &Vec<u8>) -> (r: Vec<u8>)
    ensures
        r@ == v@,
{
    let mut r: Vec<u8> = Vec::new();
    let mut i: usize = 0;
    while i < v.len()
        invariant
            i <= v@.len(),
            r@ == v@.subrange(0, i as int),
        decreases v@.len() - i,
    {
        r.push(v[i]);
        proof {
            assert(r@ =~= v@.subrange(0, i + 1));
        }
        i = i + 1;
    }
    proof {
        assert(v@.subrange(0, v@.len() as int) =~= v@);
    }
    r
}

/// One client's subscription to one service: the cluster filter, the
/// client's UDP endpoint, and liveness bookkeeping.
pub struct ListenerItem {
    pub clusters: Vec<String>,
    pub only_healthy: bool,
    pub listener_addr: ClientAddr,
    pub last_modified: u64,
    pub last_response_time: u64,
    pub clusters_key: String,
}

/// The view of a `ListenerItem`.
pub struct ItemView {
    pub clusters: Seq<Seq<char>>,
    pub only_healthy: bool,
    pub listener_addr: ClientAddr,
    pub last_modified: u64,
    pub last_response_time: u64,
    pub clusters_key: Seq<char>,
}

impl View for ListenerItem {
    type V = ItemView;

    open spec fn view(&self) -> ItemView {
        ItemView {
            clusters: str_views(self.clusters@),
            only_healthy: self.only_healthy,
            listener_addr: self.listener_addr,
            last_modified: self.last_modified,
            last_response_time: self.last_response_time,
            clusters_key: self.clusters_key@,
        }
    }
}

/// A subscription entry is well formed when its cache key is the canonical
/// key of its cluster list.
pub open spec fn item_wf(it: ItemView) -> bool {
    it.clusters_key == cluster_key_of(it.clusters)
}

impl ListenerItem {
    pub open spec fn wf(&self) -> bool {
        item_wf(self@)
    }

    /// A fresh subscription entry; both bookkeeping times start at zero.
    pub fn new(clusters: Vec<String>, only_healthy: bool, listener_addr: ClientAddr) -> (r: Self)
        ensures
            r.wf(),
            r@.clusters == str_views(clusters@),
            r@.only_healthy == only_healthy,
            r@.listener_addr == listener_addr,
            r@.last_modified == 0,
            r@.last_response_time == 0,
    {
        let clusters_key = gene_cluster_key(clone_strings(&clusters));
        ListenerItem {
            clusters,
            only_healthy,
            listener_addr,
            last_modified: 0,
            last_response_time: 0,
            clusters_key,
        }
    }
}

/// `it` with a fresh liveness timestamp.
pub open spec fn with_response_time(it: ItemView, t: u64) -> ItemView {
    ItemView { last_response_time: t, ..it }
}

/// `it` with a fresh last-sent timestamp.
pub open spec fn with_modified(it: ItemView, t: u64) -> ItemView {
    ItemView { last_modified: t, ..it }
}

/// Holds of an entry whose client address is `a`.
pub open spec fn addr_pred(a: ClientAddr) -> spec_fn(ItemView) -> bool {
    |it: ItemView| it.listener_addr == a
}

/// Index of the entry of address `a`, or -1.
pub open spec fn find_addr(s: Seq<ItemView>, a: ClientAddr) -> int {
    find_first(s, addr_pred(a))
}

/// A well-formed group: every entry well formed, and one entry per address.
pub open spec fn items_wf(s: Seq<ItemView>) -> bool {
    &&& forall|i: int| 0 <= i < s.len() ==> item_wf(#[trigger] s[i])
    &&& forall|i: int, j: int|
        0 <= i < j < s.len() ==> (#[trigger] s[i]).listener_addr != (#[trigger] s[j]).listener_addr
}

/// What adding a subscription does: replace in place by address, or append;
/// either way the liveness timestamp becomes `now`.
pub open spec fn add_spec(s: Seq<ItemView>, it: ItemView, now: u64) -> Seq<ItemView> {
    let it2 = with_response_time(it, now);
    let i = find_addr(s, it.listener_addr);
    if i >= 0 {
        s.update(i, it2)
    } else {
        s.push(it2)
    }
}

/// What removing an address does.
pub open spec fn remove_spec(s: Seq<ItemView>, a: ClientAddr) -> Seq<ItemView> {
    let i = find_addr(s, a);
    if i >= 0 {
        s.remove(i)
    } else {
        s
    }
}

/// What an acknowledge does: refresh the liveness timestamp of the entry of
/// `a`, if there is one.
pub open spec fn response_spec(s: Seq<ItemView>, a: ClientAddr, t: u64) -> Seq<ItemView> {
    let i = find_addr(s, a);
    if i >= 0 {
        s.update(i, with_response_time(s[i], t))
    } else {
        s
    }
}

// ---------------------------------------------------------------------------
// The fan-out group.
// ---------------------------------------------------------------------------

/// All subscription entries of one service key.
pub struct ListenerValue {
    items: Vec<ListenerItem>,
}

impl View for ListenerValue {
    type V = Seq<ItemView>;

    closed spec fn view(&self) -> Seq<ItemView> {
        Seq::new(self.items@.len(), |i: int| self.items@[i]@)
    }
}

impl ListenerValue {
    pub open spec fn wf(&self) -> bool {
        items_wf(self@)
    }

    pub fn new() -> (r: Self)
        ensures
            r.wf(),
            r@ == Seq::<ItemView>::empty(),
    {
        let r = ListenerValue { items: Vec::new() };
        proof {
            assert(r@ =~= Seq::<ItemView>::empty());
        }
        r
    }

    pub fn is_empty(&self) -> (r: bool)
        ensures
            r == (self@.len() == 0),
    {
        self.items.len() == 0
    }

    pub fn len(&self) -> (r: usize)
        ensures
            r == self@.len(),
    {
        self.items.len()
    }

    /// Index of the entry of address `addr`.
    fn find_index(&self, addr: ClientAddr) -> (r: Option<usize>)
        ensures
            match r {
                Some(i) => find_addr(self@, addr) == i as int && i < self@.len(),
                None => find_addr(self@, addr) == -1,
            },
    {
        let ghost p = addr_pred(addr);
        let n = self.items.len();
        let mut i: usize = 0;
        loop
            invariant
                p == addr_pred(addr),
                i <= n,
                n == self@.len(),
                forall|j: int| 0 <= j < i ==> !p(#[trigger] self@[j]),
            ensures
                i <= n,
                forall|j: int| 0 <= j < i ==> !p(#[trigger] self@[j]),
                i < n ==> p(self@[i as int]),
            decreases n - i,
        {
            if i == n {
                break;
            }
            if self.items[i].listener_addr == addr {
                assert(p(self@[i as int]));
                break;
            }
            assert(!p(self@[i as int]));
            i = i + 1;
        }
        proof {
            lemma_find_first_at(self@, p, i as int);
        }
        if i == n {
            None
        } else {
            Some(i)
        }
    }

    /// Registers or replaces the subscription of `item`'s address and marks
    /// it alive at `now`.  A re-subscription keeps its slot.
    pub fn add(&mut self, item: ListenerItem, now: u64)
        requires
            old(self).wf(),
            item.wf(),
        ensures
            final(self).wf(),
            final(self)@ == add_spec(old(self)@, item@, now),
    {
        let ghost it2 = with_response_time(item@, now);
        let mut item = item;
        item.last_response_time = now;
        assert(item@ == it2);
        match self.find_index(item.listener_addr) {
            Some(i) => {
                proof {
                    lemma_find_first_props(self@, addr_pred(item@.listener_addr));
                }
                let ghost pre = self.items@;
                self.items.remove(i);
                self.items.insert(i, item);
                proof {
                    pre.remove_ensures(i as int);
                    pre.remove(i as int).insert_ensures(i as int, self.items@[i as int]);
                    assert(self@ =~= old(self)@.update(i as int, it2));
                }
            },
            None => {
                proof {
                    lemma_find_first_props(self@, addr_pred(item@.listener_addr));
                }
                self.items.push(item);
                proof {
                    assert(self@ =~= old(self)@.push(it2));
                }
            },
        }
    }

    /// Drops the entry of `addr`, if there is one.
    pub fn remove(&mut self, addr: &ClientAddr)
        requires
            old(self).wf(),
        ensures
            final(self).wf(),
            final(self)@ == remove_spec(old(self)@, *addr),
    {
        match self.find_index(*addr) {
            Some(i) => {
                let ghost pre = self.items@;
                self.items.remove(i);
                proof {
                    pre.remove_ensures(i as int);
                    assert(self@ =~= old(self)@.remove(find_addr(old(self)@, *addr)));
                    lemma_find_first_props(old(self)@, addr_pred(*addr));
                    let s = old(self)@;
                    let k = find_addr(s, *addr);
                    assert forall|a: int, b: int|
                        0 <= a < b < self@.len() implies (#[trigger] self@[a]).listener_addr != (
                    #[trigger] self@[b]).listener_addr by {
                        assert(self@[a] == if a < k {
                            s[a]
                        } else {
                            s[a + 1]
                        });
                        assert(self@[b] == if b < k {
                            s[b]
                        } else {
                            s[b + 1]
                        });
                    }
                }
            },
            None => {},
        }
    }

    /// Refreshes the liveness timestamp of the entry of `addr`; unknown
    /// addresses are a no-op.
    pub fn response(&mut self, addr: &ClientAddr, time: u64)
        requires
            old(self).wf(),
        ensures
            final(self).wf(),
            final(self)@ == response_spec(old(self)@, *addr, time),
    {
        match self.find_index(*addr) {
            Some(i) => {
                proof {
                    lemma_find_first_props(self@, addr_pred(*addr));
                }
                let ghost pre = self.items@;
                let mut it = self.items.remove(i);
                it.last_response_time = time;
                self.items.insert(i, it);
                proof {
                    pre.remove_ensures(i as int);
                    pre.remove(i as int).insert_ensures(i as int, self.items@[i as int]);
                    assert(self@ =~= old(self)@.update(
                        i as int,
                        with_response_time(old(self)@[i as int], time),
                    ));
                }
            },
            None => {},
        }
    }
}

// ---------------------------------------------------------------------------
// Payload construction and the per-cycle cache.
// ---------------------------------------------------------------------------

/// The datagram body a subscription receives: the rendered, enveloped and
/// size-aware-compressed instance list its filter selects.
pub open spec fn payload_of(
    it: ItemView,
    key: ServiceKeyView,
    t: Seq<(Seq<char>, Seq<InstanceView>)>,
) -> Seq<u8> {
    let names = effective_cluster_names(it.clusters, t);
    gz_spec(
        encode_utf8(
            envelope_spec(
                render_spec(
                    join_comma(names),
                    key,
                    gathered_instances(names, it.only_healthy, t),
                ),
            ),
        ),
        1024,
    )
}

/// One outbound UDP message.
pub struct Datagram {
    pub data: Vec<u8>,
    pub addr: ClientAddr,
}

/// The view of a `Datagram`.
pub struct DatagramView {
    pub data: Seq<u8>,
    pub addr: ClientAddr,
}

impl View for Datagram {
    type V = DatagramView;

    open spec fn view(&self) -> DatagramView {
        DatagramView { data: self.data@, addr: self.addr }
    }
}

/// The views of a list of datagrams.
pub open spec fn dgram_views(v: Seq<Datagram>) -> Seq<DatagramView> {
    Seq::new(v.len(), |i: int| v[i]@)
}

/// The view of a payload cache: cache key and payload bytes of each slot.
pub open spec fn cache_entry_views(c: Seq<(String, Vec<u8>)>) -> Seq<(Seq<char>, Seq<u8>)> {
    Seq::new(c.len(), |i: int| (c[i].0@, c[i].1@))
}

/// Holds of a cache slot whose key is `ck`.
pub open spec fn ck_pred(ck: Seq<char>) -> spec_fn((Seq<char>, Seq<u8>)) -> bool {
    |e: (Seq<char>, Seq<u8>)| e.0 == ck
}

/// Index of the cache slot of key `ck`, or -1.
pub open spec fn cache_find(c: Seq<(Seq<char>, Seq<u8>)>, ck: Seq<char>) -> int {
    find_first(c, ck_pred(ck))
}

/// Holds of an entry whose cluster filter has the cache key `ck`.
pub open spec fn ckitem_pred(ck: Seq<char>) -> spec_fn(ItemView) -> bool {
    |it: ItemView| it.clusters_key == ck
}

/// Index of the first entry whose filter has the cache key `ck`, or -1.
pub open spec fn first_with_ck(s: Seq<ItemView>, ck: Seq<char>) -> int {
    find_first(s, ckitem_pred(ck))
}

/// The cache one notify cycle builds: one slot per distinct cache key, in
/// first-occurrence order, each holding the payload built from the first
/// entry with that key.
pub open spec fn cache_of(
    s: Seq<ItemView>,
    key: ServiceKeyView,
    t: Seq<(Seq<char>, Seq<InstanceView>)>,
) -> Seq<(Seq<char>, Seq<u8>)>
    decreases s.len(),
{
    if s.len() == 0 {
        Seq::<(Seq<char>, Seq<u8>)>::empty()
    } else {
        let pre = cache_of(s.drop_last(), key, t);
        if cache_find(pre, s.last().clusters_key) >= 0 {
            pre
        } else {
            pre.push((s.last().clusters_key, payload_of(s.last(), key, t)))
        }
    }
}

/// The cache covers exactly the cache keys present among the entries, and
/// the slot of a key holds the payload built from the first entry with
/// that key.
pub proof fn lemma_cache_of_complete(
    s: Seq<ItemView>,
    key: ServiceKeyView,
    t: Seq<(Seq<char>, Seq<InstanceView>)>,
    ck: Seq<char>,
)
    ensures
        (cache_find(cache_of(s, key, t), ck) >= 0) == (first_with_ck(s, ck) >= 0),
        first_with_ck(s, ck) >= 0 ==> {
            let c = cache_of(s, key, t);
            let i = cache_find(c, ck);
            &&& 0 <= i < c.len()
            &&& c[i].0 == ck
            &&& c[i].1 == payload_of(s[first_with_ck(s, ck)], key, t)
        },
    decreases s.len(),
{
    let c = cache_of(s, key, t);
    lemma_find_first_props(s, ckitem_pred(ck));
    lemma_find_first_props(c, ck_pred(ck));
    if s.len() == 0 {
        lemma_find_first_at(s, ckitem_pred(ck), 0);
        lemma_find_first_at(c, ck_pred(ck), 0);
    } else {
        let pre = s.drop_last();
        let last = s.last();
        let cpre = cache_of(pre, key, t);
        lemma_cache_of_complete(pre, key, t, ck);
        lemma_cache_of_complete(pre, key, t, last.clusters_key);
        lemma_find_first_props(pre, ckitem_pred(ck));
        lemma_find_first_props(cpre, ck_pred(ck));
        assert(forall|j: int| 0 <= j < pre.len() ==> pre[j] == s[j]);
        let fp = first_with_ck(pre, ck);
        // where the first matching entry of `s` is
        if fp >= 0 {
            lemma_find_first_at(s, ckitem_pred(ck), fp);
            assert(first_with_ck(s, ck) == fp);
        } else if ck == last.clusters_key {
            lemma_find_first_at(s, ckitem_pred(ck), s.len() - 1);
            assert(first_with_ck(s, ck) == s.len() - 1);
        } else {
            lemma_find_first_at(s, ckitem_pred(ck), s.len() as int);
            assert(first_with_ck(s, ck) == -1);
        }
        // where the cache slot of `ck` is
        if cache_find(cpre, last.clusters_key) >= 0 {
            assert(c == cpre);
        } else {
            assert(c == cpre.push((last.clusters_key, payload_of(last, key, t))));
            assert(forall|j: int| 0 <= j < cpre.len() ==> cpre[j] == c[j]);
            let fc = cache_find(cpre, ck);
            if fc >= 0 {
                lemma_find_first_at(c, ck_pred(ck), fc);
            } else if ck == last.clusters_key {
                lemma_find_first_at(c, ck_pred(ck), c.len() - 1);
            } else {
                lemma_find_first_at(c, ck_pred(ck), c.len() as int);
            }
        }
    }
}

/// The cache-reuse law: within one notify cycle, two surviving
/// subscriptions whose filters have the same cache key are sent
/// byte-identical payloads (both get the payload built from the first
/// entry with that key).
pub proof fn lemma_shared_filter_shared_payload(
    sends: Seq<DatagramView>,
    surv: Seq<ItemView>,
    key: ServiceKeyView,
    t: Seq<(Seq<char>, Seq<InstanceView>)>,
    i: int,
    j: int,
)
    requires
        sends_ok(sends, surv, key, t),
        0 <= i < sends.len(),
        0 <= j < sends.len(),
        surv[i].clusters_key == surv[j].clusters_key,
    ensures
        sends[i].data == sends[j].data,
{
    assert(sends[i].data == payload_of(
        surv[first_with_ck(surv, surv[i].clusters_key)],
        key,
        t,
    ));
    assert(sends[j].data == payload_of(
        surv[first_with_ck(surv, surv[j].clusters_key)],
        key,
        t,
    ));
}

// ---------------------------------------------------------------------------
// Liveness.
// ---------------------------------------------------------------------------

/// The liveness cutoff of a notify cycle at `now`: entries that last proved
/// liveness before `now - max(2 * period, 5)` are presumed dead.  The
/// subtraction saturates at zero.
pub open spec fn cutoff_of(now: u64, period: u64) -> int {
    let w: int = if 2 * (period as int) > 5 {
        2 * (period as int)
    } else {
        5
    };
    if now as int >= w {
        now as int - w
    } else {
        0
    }
}

/// Is the entry still live at this cutoff?
pub open spec fn live(it: ItemView, cutoff: int) -> bool {
    it.last_response_time as int >= cutoff
}

/// The entries that survive a notify cycle, in order.
pub open spec fn survivors(s: Seq<ItemView>, cutoff: int) -> Seq<ItemView>
    decreases s.len(),
{
    if s.len() == 0 {
        Seq::<ItemView>::empty()
    } else {
        survivors(s.drop_last(), cutoff) + (if live(s.last(), cutoff) {
            seq![s.last()]
        } else {
            Seq::<ItemView>::empty()
        })
    }
}

/// The addresses a notify cycle evicts, in order.
pub open spec fn evicted_addrs(s: Seq<ItemView>, cutoff: int) -> Seq<ClientAddr>
    decreases s.len(),
{
    if s.len() == 0 {
        Seq::<ClientAddr>::empty()
    } else {
        evicted_addrs(s.drop_last(), cutoff) + (if !live(s.last(), cutoff) {
            seq![s.last().listener_addr]
        } else {
            Seq::<ClientAddr>::empty()
        })
    }
}

/// Every survivor with its last-sent time set to `now`.
pub open spec fn mark_sent(s: Seq<ItemView>, now: u64) -> Seq<ItemView> {
    Seq::new(s.len(), |i: int| with_modified(s[i], now))
}

/// What the datagrams of one notify cycle hold: one per survivor, in
/// order, each carrying the cached payload of that survivor's filter key.
pub open spec fn sends_ok(
    sends: Seq<DatagramView>,
    surv: Seq<ItemView>,
    key: ServiceKeyView,
    t: Seq<(Seq<char>, Seq<InstanceView>)>,
) -> bool {
    &&& sends.len() == surv.len()
    &&& forall|i: int|
        0 <= i < sends.len() ==> (#[trigger] sends[i]).addr == surv[i].listener_addr
    &&& forall|i: int|
        0 <= i < sends.len() ==> (#[trigger] sends[i]).data == payload_of(
            surv[first_with_ck(surv, surv[i].clusters_key)],
            key,
            t,
        )
}

impl ListenerValue {
    /// The instances of the named clusters, in order, health-filtered.
    pub fn get_instance_list(
        cluster_names: &Vec<String>,
        only_healthy: bool,
        instances: &InstanceTable,
    ) -> (r: Vec<Instance>)
        ensures
            inst_views(r@) == gathered_instances(
                str_views(cluster_names@),
                only_healthy,
                instances@,
            ),
    {
        let ghost names = str_views(cluster_names@);
        let ghost t = instances@;
        let mut list: Vec<Instance> = Vec::new();
        let n = cluster_names.len();
        let mut i: usize = 0;
        assert(inst_views(list@) =~= gathered_instances(names.subrange(0, 0), only_healthy, t));
        while i < n
            invariant
                i <= n,
                n == cluster_names@.len(),
                names == str_views(cluster_names@),
                t == instances@,
                inst_views(list@) == gathered_instances(
                    names.subrange(0, i as int),
                    only_healthy,
                    t,
                ),
            decreases n - i,
        {
            let ghost pre = inst_views(list@);
            assert(cluster_names@[i as int]@ == names[i as int]);
            match instances.get_cluster(&cluster_names[i]) {
                Some(l) => {
                    let m = l.len();
                    let mut j: usize = 0;
                    assert(healthy_filter(inst_views(l@).subrange(0, 0), only_healthy)
                        =~= Seq::<InstanceView>::empty());
                    assert(inst_views(list@) =~= pre + healthy_filter(
                        inst_views(l@).subrange(0, 0),
                        only_healthy,
                    ));
                    while j < m
                        invariant
                            j <= m,
                            m == l@.len(),
                            inst_views(list@) == pre + healthy_filter(
                                inst_views(l@).subrange(0, j as int),
                                only_healthy,
                            ),
                        decreases m - j,
                    {
                        let inst = &l[j];
                        proof {
                            let a = inst_views(l@).subrange(0, j as int);
                            let b = inst_views(l@).subrange(0, j + 1);
                            assert(b.drop_last() =~= a);
                            assert(b.last() == inst_views(l@)[j as int]);
                            assert(inst_views(l@)[j as int] == l@[j as int]@);
                        }
                        if !only_healthy || inst.healthy {
                            let ghost pre_list = list@;
                            list.push(inst.clone());
                            proof {
                                let a = inst_views(l@).subrange(0, j as int);
                                let b = inst_views(l@).subrange(0, j + 1);
                                assert(healthy_filter(b, only_healthy) =~= healthy_filter(
                                    a,
                                    only_healthy,
                                ).push(l@[j as int]@));
                                assert(inst_views(list@) =~= inst_views(pre_list).push(
                                    l@[j as int]@,
                                ));
                                assert(inst_views(list@) =~= pre + healthy_filter(
                                    b,
                                    only_healthy,
                                ));
                            }
                        } else {
                            proof {
                                assert(inst_views(list@) =~= pre + healthy_filter(
                                    inst_views(l@).subrange(0, j + 1),
                                    only_healthy,
                                ));
                            }
                        }
                        j = j + 1;
                    }
                    proof {
                        assert(inst_views(l@).subrange(0, m as int) =~= inst_views(l@));
                    }
                },
                None => {},
            }
            proof {
                let a = names.subrange(0, i as int);
                let b = names.subrange(0, i + 1);
                assert(b.drop_last() =~= a);
                assert(b.last() == names[i as int]);
                assert(inst_views(list@) =~= gathered_instances(b, only_healthy, t));
            }
            i = i + 1;
        }
        proof {
            assert(names.subrange(0, n as int) =~= names);
        }
        list
    }

    /// The rendered instance list of the named clusters.
    pub fn get_instance_list_string(
        key: &ServiceKey,
        cluster_names: &Vec<String>,
        only_healthy: bool,
        instances: &InstanceTable,
    ) -> (r: String)
        ensures
            r@ == render_spec(
                join_comma(str_views(cluster_names@)),
                key@,
                gathered_instances(str_views(cluster_names@), only_healthy, instances@),
            ),
    {
        let clusters = join_strings_comma(cluster_names);
        let list = Self::get_instance_list(cluster_names, only_healthy, instances);
        render_instance_list(clusters.as_str(), key, &list)
    }

    /// Builds the datagram body one subscription receives.
    pub fn build_msg(service_key: &ServiceKey, instances: &InstanceTable, item: &ListenerItem) -> (r:
        Vec<u8>)
        ensures
            r@ == payload_of(item@, service_key@, instances@),
    {
        let cluster_names: Vec<String> = if item.clusters.len() == 0 {
            instances.cluster_names()
        } else {
            clone_strings(&item.clusters)
        };
        proof {
            assert(str_views(cluster_names@) =~= effective_cluster_names(
                item@.clusters,
                instances@,
            ));
        }
        let res = Self::get_instance_list_string(service_key, &cluster_names, item.only_healthy, instances);
        let envelope = build_envelope(res.as_str());
        let bytes = envelope.as_str().as_bytes_vec();
        gz_encode(bytes.as_slice(), 1024)
    }

    /// Index of the cache slot of key `ck`.
    fn cache_get_index(cache: &Vec<(String, Vec<u8>)>, ck: &String) -> (r: Option<usize>)
        ensures
            match r {
                Some(i) => cache_find(cache_entry_views(cache@), ck@) == i as int && i
                    < cache@.len(),
                None => cache_find(cache_entry_views(cache@), ck@) == -1,
            },
    {
        let ghost p = ck_pred(ck@);
        let ghost cv = cache_entry_views(cache@);
        let n = cache.len();
        let mut i: usize = 0;
        loop
            invariant
                p == ck_pred(ck@),
                cv == cache_entry_views(cache@),
                i <= n,
                n == cv.len(),
                forall|j: int| 0 <= j < i ==> !p(#[trigger] cv[j]),
            ensures
                i <= n,
                forall|j: int| 0 <= j < i ==> !p(#[trigger] cv[j]),
                i < n ==> p(cv[i as int]),
            decreases n - i,
        {
            if i == n {
                break;
            }
            if cache[i].0.eq(ck) {
                assert(p(cv[i as int]));
                break;
            }
            assert(!p(cv[i as int]));
            i = i + 1;
        }
        proof {
            lemma_find_first_at(cv, p, i as int);
        }
        if i == n {
            None
        } else {
            Some(i)
        }
    }

    /// Builds the per-cycle payload cache: one payload per distinct cache
    /// key among the current entries.
    fn build_cache(&self, service_key: &ServiceKey, instances: &InstanceTable) -> (r: Vec<
        (String, Vec<u8>),
    >)
        ensures
            cache_entry_views(r@) == cache_of(self@, service_key@, instances@),
    {
        let mut cache: Vec<(String, Vec<u8>)> = Vec::new();
        let n = self.items.len();
        let mut i: usize = 0;
        assert(cache_entry_views(cache@) =~= cache_of(
            self@.subrange(0, 0),
            service_key@,
            instances@,
        ));
        while i < n
            invariant
                i <= n,
                n == self@.len(),
                cache_entry_views(cache@) == cache_of(
                    self@.subrange(0, i as int),
                    service_key@,
                    instances@,
                ),
            decreases n - i,
        {
            let it = &self.items[i];
            proof {
                assert(it@ == self@[i as int]);
            }
            let hit = Self::cache_get_index(&cache, &it.clusters_key);
            match hit {
                Some(_) => {},
                None => {
                    let msg = Self::build_msg(service_key, instances, it);
                    cache.push((it.clusters_key.clone(), msg));
                },
            }
            proof {
                let a = self@.subrange(0, i as int);
                let b = self@.subrange(0, i + 1);
                assert(b.drop_last() =~= a);
                assert(b.last() == self@[i as int]);
                assert(cache_entry_views(cache@) =~= cache_of(b, service_key@, instances@));
            }
            i = i + 1;
        }
        proof {
            assert(self@.subrange(0, n as int) =~= self@);
        }
        cache
    }

    /// One notify cycle: evict entries whose liveness lapsed, build one
    /// payload per distinct surviving filter key, and produce one datagram
    /// per survivor; every survivor's last-sent time becomes `now`.
    /// Returns the evicted addresses and the datagrams to transmit.
    pub fn notify(
        &mut self,
        service_key: &ServiceKey,
        instances: &InstanceTable,
        period: u64,
        now: u64,
    ) -> (r: (Vec<ClientAddr>, Vec<Datagram>))
        requires
            old(self).wf(),
            period <= u64::MAX / 2,
        ensures
            final(self).wf(),
            final(self)@ == mark_sent(survivors(old(self)@, cutoff_of(now, period)), now),
            r.0@ == evicted_addrs(old(self)@, cutoff_of(now, period)),
            sends_ok(
                dgram_views(r.1@),
                survivors(old(self)@, cutoff_of(now, period)),
                service_key@,
                instances@,
            ),
    {
        let ghost orig = self@;
        let ghost cutoff = cutoff_of(now, period);
        let w2 = 2 * period;
        let w = if w2 > 5 {
            w2
        } else {
            5
        };
        let remove_time = if now > w {
            now - w
        } else {
            0
        };
        proof {
            assert(remove_time as int == cutoff);
        }
        // evict entries whose liveness lapsed
        let mut removes: Vec<ClientAddr> = Vec::new();
        let mut retained: Vec<ListenerItem> = Vec::new();
        assert(item_views(retained@) =~= survivors(orig.subrange(0, 0), cutoff));
        assert(removes@ =~= evicted_addrs(orig.subrange(0, 0), cutoff));
        assert(self@ =~= orig.skip(0));
        loop
            invariant
                remove_time as int == cutoff,
                self@.len() == self.items@.len(),
                self@.len() <= orig.len(),
                self@ == orig.skip(orig.len() - self@.len()),
                item_views(retained@) == survivors(
                    orig.subrange(0, orig.len() - self@.len()),
                    cutoff,
                ),
                removes@ == evicted_addrs(orig.subrange(0, orig.len() - self@.len()), cutoff),
                items_wf(orig),
                items_wf(item_views(retained@)),
                forall|a: int, b: int|
                    0 <= a < item_views(retained@).len() && 0 <= b < self@.len() ==> (
                    #[trigger] item_views(retained@)[a]).listener_addr != (
                    #[trigger] self@[b]).listener_addr,
            ensures
                self@.len() == 0,
                item_views(retained@) == survivors(orig, cutoff),
                removes@ == evicted_addrs(orig, cutoff),
                items_wf(item_views(retained@)),
            decreases self@.len(),
        {
            let ghost k: int = orig.len() - self@.len();
            if self.items.len() == 0 {
                proof {
                    assert(orig.subrange(0, orig.len() as int) =~= orig);
                }
                break;
            }
            assert(orig.skip(k)[0] == orig[k]);
            assert(self@[0] == orig[k]);
            let ghost pre_view = self@;
            let ghost pre_entries = self.items@;
            assert(forall|a: int, b2: int|
                0 <= a < item_views(retained@).len() && 0 <= b2 < pre_view.len() ==> (
                #[trigger] item_views(retained@)[a]).listener_addr != (
                #[trigger] pre_view[b2]).listener_addr);
            let it = self.items.remove(0);
            proof {
                pre_entries.remove_ensures(0);
                assert(pre_view[0] == pre_entries[0]@);
                assert(it@ == orig[k]);
                assert forall|x: int| 0 <= x < self@.len() implies self@[x] == orig.skip(k + 1)[x] by {
                    assert(self.items@[x] == pre_entries[x + 1]);
                    assert(orig.skip(k + 1)[x] == orig[k + 1 + x]);
                    assert(orig.skip(k)[x + 1] == orig[k + 1 + x]);
                }
                assert(self@ =~= orig.skip(k + 1));
                let a = orig.subrange(0, k);
                let b = orig.subrange(0, k + 1);
                assert(b.drop_last() =~= a);
                assert(b.last() == orig[k]);
            }
            if it.last_response_time < remove_time {
                removes.push(it.listener_addr);
                proof {
                    assert(!live(orig[k], cutoff));
                    assert(removes@ =~= evicted_addrs(orig.subrange(0, k + 1), cutoff));
                    assert(item_views(retained@) =~= survivors(orig.subrange(0, k + 1), cutoff));
                    assert forall|a: int, b: int|
                        0 <= a < item_views(retained@).len() && 0 <= b < self@.len() implies (
                    #[trigger] item_views(retained@)[a]).listener_addr != (
                    #[trigger] self@[b]).listener_addr by {
                        assert(pre_view[b + 1] == orig.skip(k)[b + 1]);
                        assert(orig.skip(k)[b + 1] == orig[k + 1 + b]);
                        assert(self@[b] == orig[k + 1 + b]);
                        assert(item_views(retained@)[a].listener_addr != pre_view[b + 1].listener_addr);
                    }
                }
            } else {
                let ghost pre_retained = retained@;
                retained.push(it);
                proof {
                    assert(live(orig[k], cutoff));
                    assert(retained@ == pre_retained.push(retained@[pre_retained.len() as int]));
                    assert(retained@[pre_retained.len() as int]@ == orig[k]);
                    assert(item_views(retained@) =~= item_views(pre_retained).push(orig[k]));
                    assert(item_views(retained@) =~= survivors(orig.subrange(0, k + 1), cutoff));
                    assert(removes@ =~= evicted_addrs(orig.subrange(0, k + 1), cutoff));
                    assert forall|a: int, b: int|
                        0 <= a < item_views(retained@).len() && 0 <= b < self@.len() implies (
                    #[trigger] item_views(retained@)[a]).listener_addr != (
                    #[trigger] self@[b]).listener_addr by {
                        assert(pre_view[b + 1] == orig.skip(k)[b + 1]);
                        assert(orig.skip(k)[b + 1] == orig[k + 1 + b]);
                        assert(self@[b] == orig[k + 1 + b]);
                        if a < pre_retained.len() {
                            assert(retained@[a] == pre_retained[a]);
                            assert(item_views(retained@)[a] == item_views(pre_retained)[a]);
                            assert(item_views(pre_retained)[a].listener_addr != pre_view[b
                                + 1].listener_addr);
                        } else {
                            assert(item_views(retained@)[a] == orig[k]);
                            assert(orig[k].listener_addr != orig[k + 1 + b].listener_addr);
                        }
                    }
                }
            }
        }
        self.items = retained;
        proof {
            assert(self@ =~= item_views(retained@));
        }
        let ghost surv = self@;
        // build one payload per distinct surviving filter key
        let cache = self.build_cache(service_key, instances);
        // send to every survivor and stamp the send time
        let mut sends: Vec<Datagram> = Vec::new();
        let mut out_items: Vec<ListenerItem> = Vec::new();
        assert(self@ =~= surv.skip(0));
        assert(item_views(out_items@) =~= mark_sent(surv, now).subrange(0, 0));
        loop
            invariant
                self@.len() == self.items@.len(),
                self@.len() <= surv.len(),
                self@ == surv.skip(surv.len() - self@.len()),
                item_views(out_items@) == mark_sent(surv, now).subrange(
                    0,
                    surv.len() - self@.len(),
                ),
                sends@.len() == surv.len() - self@.len(),
                cache_entry_views(cache@) == cache_of(surv, service_key@, instances@),
                forall|i: int|
                    0 <= i < sends@.len() ==> (#[trigger] sends@[i]@).addr
                        == surv[i].listener_addr,
                forall|i: int|
                    0 <= i < sends@.len() ==> (#[trigger] sends@[i]@).data == payload_of(
                        surv[first_with_ck(surv, surv[i].clusters_key)],
                        service_key@,
                        instances@,
                    ),
            ensures
                self@.len() == 0,
                item_views(out_items@) == mark_sent(surv, now).subrange(0, surv.len() as int),
                sends@.len() == surv.len(),
                forall|i: int|
                    0 <= i < sends@.len() ==> (#[trigger] sends@[i]@).addr
                        == surv[i].listener_addr,
                forall|i: int|
                    0 <= i < sends@.len() ==> (#[trigger] sends@[i]@).data == payload_of(
                        surv[first_with_ck(surv, surv[i].clusters_key)],
                        service_key@,
                        instances@,
                    ),
            decreases self@.len(),
        {
            let ghost k: int = surv.len() - self@.len();
            if self.items.len() == 0 {
                break;
            }
            assert(surv.skip(k)[0] == surv[k]);
            assert(self@[0] == surv[k]);
            let ghost pre_view = self@;
            let ghost pre_entries = self.items@;
            let mut it = self.items.remove(0);
            proof {
                pre_entries.remove_ensures(0);
                assert(pre_view[0] == pre_entries[0]@);
                assert(it@ == surv[k]);
                assert forall|x: int| 0 <= x < self@.len() implies self@[x] == surv.skip(k + 1)[x] by {
                    assert(self.items@[x] == pre_entries[x + 1]);
                    assert(surv.skip(k + 1)[x] == surv[k + 1 + x]);
                    assert(surv.skip(k)[x + 1] == surv[k + 1 + x]);
                }
                assert(self@ =~= surv.skip(k + 1));
            }
            proof {
                assert(ckitem_pred(surv[k].clusters_key)(surv[k]));
                lemma_find_first_props(surv, ckitem_pred(surv[k].clusters_key));
                lemma_cache_of_complete(surv, service_key@, instances@, surv[k].clusters_key);
            }
            let hit = Self::cache_get_index(&cache, &it.clusters_key);
            match hit {
                Some(ci) => {
                    let data = clone_bytes(&cache[ci].1);
                    proof {
                        assert(cache_entry_views(cache@)[ci as int].1 == cache@[ci as int].1@);
                    }
                    sends.push(Datagram { data, addr: it.listener_addr });
                    it.last_modified = now;
                    proof {
                        assert(it@ == with_modified(surv[k], now));
                        assert(mark_sent(surv, now)[k] == with_modified(surv[k], now));
                    }
                    let ghost pre_out = out_items@;
                    let ghost itv = it@;
                    out_items.push(it);
                    proof {
                        assert(out_items@ == pre_out.push(out_items@[pre_out.len() as int]));
                        assert(item_views(pre_out).len() == k);
                        assert(pre_out.len() == k);
                        assert(k < surv.len());
                        assert(item_views(out_items@).len() == k + 1);
                        assert(mark_sent(surv, now).subrange(0, k + 1).len() == k + 1);
                        assert forall|j: int|
                            0 <= j < k + 1 implies item_views(out_items@)[j] == mark_sent(
                            surv,
                            now,
                        ).subrange(0, k + 1)[j] by {
                            assert(item_views(pre_out).len() == k);
                            if j < k {
                                assert(out_items@[j] == pre_out[j]);
                                assert(item_views(pre_out)[j] == mark_sent(surv, now).subrange(
                                    0,
                                    k,
                                )[j]);
                            } else {
                                assert(out_items@[j]@ == itv);
                                assert(itv == mark_sent(surv, now)[j]);
                            }
                        }
                        assert(item_views(out_items@) =~= mark_sent(surv, now).subrange(0, k + 1));
                    }
                },
                None => {
                    // unreachable: the cache covers every surviving key
                    proof {
                        assert(false);
                    }
                },
            }
        }
        self.items = out_items;
        proof {
            assert(mark_sent(surv, now).subrange(0, surv.len() as int) =~= mark_sent(surv, now));
            assert(self@ =~= mark_sent(surv, now));
            // well-formedness survives filtering and stamping
            assert forall|i: int| 0 <= i < self@.len() implies item_wf(#[trigger] self@[i]) by {
                assert(self@[i] == with_modified(surv[i], now));
            }
            assert forall|a: int, b: int|
                0 <= a < b < self@.len() implies (#[trigger] self@[a]).listener_addr != (
            #[trigger] self@[b]).listener_addr by {
                assert(self@[a] == with_modified(surv[a], now));
                assert(self@[b] == with_modified(surv[b], now));
            }
        }
        (removes, sends)
    }
}

/// The views of a list of subscription entries.
pub open spec fn item_views(v: Seq<ListenerItem>) -> Seq<ItemView> {
    Seq::new(v.len(), |i: int| v[i]@)
}

// ---------------------------------------------------------------------------
// Laws of the fan-out group.
// ---------------------------------------------------------------------------

/// The replacement law: of two subscriptions from the same address,
/// only the later one is in effect; the earlier is replaced, not kept.
pub proof fn lemma_latest_subscription_wins(
    s: Seq<ItemView>,
    it1: ItemView,
    it2: ItemView,
    t1: u64,
    t2: u64,
)
    requires
        it1.listener_addr == it2.listener_addr,
    ensures
        add_spec(add_spec(s, it1, t1), it2, t2) == add_spec(s, it2, t2),
{
    let a = it1.listener_addr;
    let p = addr_pred(a);
    lemma_find_first_props(s, p);
    let i = find_addr(s, a);
    if i >= 0 {
        let s1 = s.update(i, with_response_time(it1, t1));
        assert forall|j: int| 0 <= j < i implies !p(#[trigger] s1[j]) by {
            assert(s1[j] == s[j]);
        }
        assert(p(s1[i]));
        lemma_find_first_at(s1, p, i);
        assert(s1.update(i, with_response_time(it2, t2)) =~= s.update(
            i,
            with_response_time(it2, t2),
        ));
    } else {
        let s1 = s.push(with_response_time(it1, t1));
        assert forall|j: int| 0 <= j < s.len() implies !p(#[trigger] s1[j]) by {
            assert(s1[j] == s[j]);
        }
        assert(p(s1[s.len() as int]));
        lemma_find_first_at(s1, p, s.len() as int);
        assert(s1.update(s.len() as int, with_response_time(it2, t2)) =~= s.push(
            with_response_time(it2, t2),
        ));
    }
}

/// The eviction law: at a notify cycle, an entry whose liveness
/// timestamp is older than the cutoff is evicted (its address is in the
/// removal list, and the entry is not among the survivors); a fresher
/// entry is retained and its address is not reported removed.
pub proof fn lemma_eviction_iff(s: Seq<ItemView>, cutoff: int, i: int)
    requires
        items_wf(s),
        0 <= i < s.len(),
    ensures
        !live(s[i], cutoff) ==> evicted_addrs(s, cutoff).contains(s[i].listener_addr),
        live(s[i], cutoff) ==> !evicted_addrs(s, cutoff).contains(s[i].listener_addr),
        live(s[i], cutoff) ==> survivors(s, cutoff).contains(s[i]),
    decreases s.len(),
{
    let pre = s.drop_last();
    let ev = evicted_addrs(s, cutoff);
    let ev_pre = evicted_addrs(pre, cutoff);
    let sv = survivors(s, cutoff);
    let sv_pre = survivors(pre, cutoff);
    assert(forall|j: int| 0 <= j < pre.len() ==> pre[j] == s[j]);
    assert(items_wf(pre));
    if i < s.len() - 1 {
        lemma_eviction_iff(pre, cutoff, i);
        if !live(s[i], cutoff) {
            let w = choose|w: int| 0 <= w < ev_pre.len() && ev_pre[w] == s[i].listener_addr;
            assert(ev[w] == s[i].listener_addr);
        } else {
            assert(forall|w: int| 0 <= w < ev_pre.len() ==> ev[w] == ev_pre[w]);
            if live(s.last(), cutoff) {
                assert(ev =~= ev_pre);
            } else {
                assert(ev.len() == ev_pre.len() + 1);
                assert(ev.last() == s.last().listener_addr);
                assert(s.last().listener_addr != s[i].listener_addr);
            }
            let w = choose|w: int| 0 <= w < sv_pre.len() && sv_pre[w] == s[i];
            if live(s[i], cutoff) {
                assert(sv[w] == s[i]);
            }
        }
    } else {
        if !live(s[i], cutoff) {
            assert(ev.last() == s[i].listener_addr);
        } else {
            assert(sv.last() == s[i]);
            assert forall|w: int| 0 <= w < ev.len() implies ev[w] != s[i].listener_addr by {
                assert(ev =~= ev_pre);
                lemma_evicted_from(pre, cutoff, w);
            }
        }
    }
}

/// Every address in the eviction list is the address of some entry that
/// was not live.
proof fn lemma_evicted_from(s: Seq<ItemView>, cutoff: int, w: int)
    requires
        0 <= w < evicted_addrs(s, cutoff).len(),
    ensures
        exists|j: int|
            0 <= j < s.len() && !live(#[trigger] s[j], cutoff) && s[j].listener_addr
                == evicted_addrs(s, cutoff)[w],
    decreases s.len(),
{
    let pre = s.drop_last();
    let ev = evicted_addrs(s, cutoff);
    let ev_pre = evicted_addrs(pre, cutoff);
    if w < ev_pre.len() {
        lemma_evicted_from(pre, cutoff, w);
        let j = choose|j: int|
            0 <= j < pre.len() && !live(#[trigger] pre[j], cutoff) && pre[j].listener_addr
                == ev_pre[w];
        assert(s[j] == pre[j]);
        assert(ev[w] == ev_pre[w]);
        assert(!live(s[j], cutoff) && s[j].listener_addr == ev[w]);
    } else {
        assert(!live(s.last(), cutoff));
        assert(ev[w] == s.last().listener_addr);
        assert(!live(s[s.len() - 1], cutoff) && s[s.len() - 1].listener_addr == ev[w]);
    }
}

// ---------------------------------------------------------------------------
// The notification registry.
// ---------------------------------------------------------------------------

/// The canonical string of a service key: its three fields joined by a
/// separator byte that occurs in none of them.
pub open spec fn canon_key(k: ServiceKeyView) -> Seq<char> {
    k.namespace_id + "\u{1}"@ + k.group_name + "\u{1}"@ + k.service_name
}

/// Holds of a group entry whose canonical key is `ck`.
pub open spec fn lkey_pred(ck: Seq<char>) -> spec_fn((Seq<char>, Seq<ItemView>)) -> bool {
    |e: (Seq<char>, Seq<ItemView>)| e.0 == ck
}

/// Index of the group of canonical key `ck`, or -1.
pub open spec fn listeners_find(ls: Seq<(Seq<char>, Seq<ItemView>)>, ck: Seq<char>) -> int {
    find_first(ls, lkey_pred(ck))
}

/// Holds of a reverse-map entry whose client address is `a`.
pub open spec fn caddr_pred(a: ClientAddr) -> spec_fn((ClientAddr, Seq<Seq<char>>)) -> bool {
    |e: (ClientAddr, Seq<Seq<char>>)| e.0 == a
}

/// Index of the reverse-map entry of address `a`, or -1.
pub open spec fn clients_find(cs: Seq<(ClientAddr, Seq<Seq<char>>)>, a: ClientAddr) -> int {
    find_first(cs, caddr_pred(a))
}

/// Holds of a key-set member equal to `kk`.
pub open spec fn skey_pred(kk: Seq<char>) -> spec_fn(Seq<char>) -> bool {
    |x: Seq<char>| x == kk
}

/// Index of `kk` in a key set, or -1.
pub open spec fn key_set_find(set: Seq<Seq<char>>, kk: Seq<char>) -> int {
    find_first(set, skey_pred(kk))
}

/// The views of the group list.
pub open spec fn lviews(ls: Seq<(String, ListenerValue)>) -> Seq<(Seq<char>, Seq<ItemView>)> {
    Seq::new(ls.len(), |i: int| (ls[i].0@, ls[i].1@))
}

/// The views of the reverse client map.
pub open spec fn cviews(cs: Seq<(ClientAddr, Vec<String>)>) -> Seq<(ClientAddr, Seq<Seq<char>>)> {
    Seq::new(cs.len(), |i: int| (cs[i].0, str_views(cs[i].1@)))
}

/// The views of a list of service keys.
pub open spec fn keys_views(v: Seq<ServiceKey>) -> Seq<ServiceKeyView> {
    Seq::new(v.len(), |i: int| v[i]@)
}

/// The abstract state of the registry.
pub struct RegistryView {
    pub listeners: Seq<(Seq<char>, Seq<ItemView>)>,
    pub clients: Seq<(ClientAddr, Seq<Seq<char>>)>,
    pub timers: Seq<TimerEntryView>,
    pub period: u64,
}

/// A well-formed registry: every group well formed and non-empty, group
/// keys unique, client addresses unique, every client's key set non-empty
/// and duplicate-free, timers sorted, and a period small enough that its
/// doubling cannot overflow.
pub open spec fn registry_wf(v: RegistryView) -> bool {
    &&& forall|i: int| 0 <= i < v.listeners.len() ==> items_wf((#[trigger] v.listeners[i]).1)
    &&& forall|i: int| 0 <= i < v.listeners.len() ==> (#[trigger] v.listeners[i]).1.len() > 0
    &&& forall|i: int, j: int|
        0 <= i < j < v.listeners.len() ==> (#[trigger] v.listeners[i]).0 != (
        #[trigger] v.listeners[j]).0
    &&& forall|i: int, j: int|
        0 <= i < j < v.clients.len() ==> (#[trigger] v.clients[i]).0 != (
        #[trigger] v.clients[j]).0
    &&& forall|i: int| 0 <= i < v.clients.len() ==> (#[trigger] v.clients[i]).1.len() > 0
    &&& forall|i: int, a: int, b: int|
        #![trigger v.clients[i].1[a], v.clients[i].1[b]]
        0 <= i < v.clients.len() && 0 <= a < b < v.clients[i].1.len() ==> v.clients[i].1[a]
            != v.clients[i].1[b]
    &&& expiry_sorted(v.timers)
    &&& v.period <= u64::MAX / 2
}

/// What registering `kk` under `a` in the reverse map does: create the
/// address's set when absent, add `kk` to it when missing, and otherwise
/// change nothing.
pub open spec fn ucm_spec(
    cs: Seq<(ClientAddr, Seq<Seq<char>>)>,
    a: ClientAddr,
    kk: Seq<char>,
) -> Seq<(ClientAddr, Seq<Seq<char>>)> {
    let i = clients_find(cs, a);
    if i >= 0 {
        if key_set_find(cs[i].1, kk) >= 0 {
            cs
        } else {
            cs.update(i, (a, cs[i].1.push(kk)))
        }
    } else {
        cs.push((a, seq![kk]))
    }
}

/// What one eviction does to the reverse map: take `ck` out of the
/// address's key set, and drop the address entirely once its set is empty.
pub open spec fn clean_one(
    cs: Seq<(ClientAddr, Seq<Seq<char>>)>,
    a: ClientAddr,
    ck: Seq<char>,
) -> Seq<(ClientAddr, Seq<Seq<char>>)> {
    let i = clients_find(cs, a);
    if i >= 0 {
        let j = key_set_find(cs[i].1, ck);
        if j >= 0 {
            let set2 = cs[i].1.remove(j);
            if set2.len() == 0 {
                cs.remove(i)
            } else {
                cs.update(i, (a, set2))
            }
        } else {
            cs
        }
    } else {
        cs
    }
}

/// `clean_one`, folded over every evicted address in order.
pub open spec fn clean_clients(
    cs: Seq<(ClientAddr, Seq<Seq<char>>)>,
    removes: Seq<ClientAddr>,
    ck: Seq<char>,
) -> Seq<(ClientAddr, Seq<Seq<char>>)>
    decreases removes.len(),
{
    if removes.len() == 0 {
        cs
    } else {
        clean_clients(clean_one(cs, removes[0], ck), removes.skip(1), ck)
    }
}

/// One group of the registry after the first `upto` keys of the client's
/// key set have been processed by an acknowledge.
pub open spec fn ack_entry(
    prev: RegistryView,
    a: ClientAddr,
    now: u64,
    upto: int,
    civ: int,
    li: int,
) -> (Seq<char>, Seq<ItemView>) {
    if key_set_find(prev.clients[civ].1.subrange(0, upto), prev.listeners[li].0) >= 0 {
        (prev.listeners[li].0, response_spec(prev.listeners[li].1, a, now))
    } else {
        prev.listeners[li]
    }
}

/// What an acknowledge does to the groups: every group whose canonical
/// key is in the address's key set refreshes that address's entry.
pub open spec fn ack_listeners_spec(v: RegistryView, a: ClientAddr, now: u64) -> Seq<
    (Seq<char>, Seq<ItemView>),
> {
    Seq::new(
        v.listeners.len(),
        |i: int|
            {
                let e = v.listeners[i];
                let ci = clients_find(v.clients, a);
                if ci >= 0 && key_set_find(v.clients[ci].1, e.0) >= 0 {
                    (e.0, response_spec(e.1, a, now))
                } else {
                    e
                }
            },
    )
}

/// Re-arming after a drain: one timer entry at `e` per drained key, in
/// drain order, each inserted before the first strictly later expiry.
pub open spec fn rearm_all(
    timers: Seq<TimerEntryView>,
    keys: Seq<ServiceKeyView>,
    e: u64,
) -> Seq<TimerEntryView>
    decreases keys.len(),
{
    if keys.len() == 0 {
        timers
    } else {
        rearm_all(
            timers.insert(first_after(timers, e), TimerEntryView { expiry: e, key: keys[0] }),
            keys.skip(1),
            e,
        )
    }
}

// --- the post-state relations of the four commands ---

/// The post-state of `Subscribe`.
pub open spec fn add_post(
    pre: RegistryView,
    post: RegistryView,
    k: ServiceKeyView,
    it: ItemView,
    now: u64,
) -> bool {
    let ck = canon_key(k);
    let li = listeners_find(pre.listeners, ck);
    &&& (if li >= 0 {
        post.listeners == pre.listeners.update(
            li,
            (ck, add_spec(pre.listeners[li].1, it, now)),
        ) && post.timers == pre.timers
    } else {
        post.listeners == pre.listeners.push((ck, add_spec(Seq::<ItemView>::empty(), it, now)))
            && post.timers == pre.timers.insert(
            first_after(pre.timers, (now + pre.period) as u64),
            TimerEntryView { expiry: (now + pre.period) as u64, key: k },
        )
    })
    &&& post.clients == ucm_spec(pre.clients, it.listener_addr, ck)
    &&& post.period == pre.period
}

/// The post-state of `Acknowledge`.  On an address with no subscriptions
/// it changes nothing: a no-op that succeeds.
pub open spec fn ack_post(pre: RegistryView, post: RegistryView, a: ClientAddr, now: u64) -> bool {
    &&& post.listeners == ack_listeners_spec(pre, a, now)
    &&& post.clients == pre.clients
    &&& post.timers == pre.timers
    &&& post.period == pre.period
    &&& clients_find(pre.clients, a) == -1 ==> post.listeners == pre.listeners
}

/// The post-state of `PushUpdate`: one notify cycle for the key.  An
/// unknown key is a no-op; a group left empty disappears from the map,
/// and every evicted address loses this key in the reverse map.
pub open spec fn notify_post(
    pre: RegistryView,
    post: RegistryView,
    k: ServiceKeyView,
    t: Seq<(Seq<char>, Seq<InstanceView>)>,
    now: u64,
    sends: Seq<DatagramView>,
) -> bool {
    let ck = canon_key(k);
    let li = listeners_find(pre.listeners, ck);
    if li < 0 {
        post == pre && sends.len() == 0
    } else {
        let group = pre.listeners[li].1;
        let cutoff = cutoff_of(now, pre.period);
        let surv = survivors(group, cutoff);
        let evicted = evicted_addrs(group, cutoff);
        &&& post.listeners == (if surv.len() == 0 {
            pre.listeners.remove(li)
        } else {
            pre.listeners.update(li, (ck, mark_sent(surv, now)))
        })
        &&& post.clients == clean_clients(pre.clients, evicted, ck)
        &&& post.timers == pre.timers
        &&& post.period == pre.period
        &&& sends_ok(sends, surv, k, t)
    }
}

/// The post-state of `ArmHeartbeat`: one timer entry at `now + period`.
pub open spec fn arm_post(
    pre: RegistryView,
    post: RegistryView,
    k: ServiceKeyView,
    now: u64,
) -> bool {
    &&& post.timers == pre.timers.insert(
        first_after(pre.timers, (now + pre.period) as u64),
        TimerEntryView { expiry: (now + pre.period) as u64, key: k },
    )
    &&& post.listeners == pre.listeners
    &&& post.clients == pre.clients
    &&& post.period == pre.period
}

/// The commands the registry accepts.
pub enum NamingListenerCmd {
    Add(ServiceKey, ListenerItem),
    Response(ClientAddr),
    Notify(ServiceKey, String, InstanceTable),
    AddHeartbeat(ServiceKey),
}

/// The top-level authority: service-key groups, the reverse client map,
/// the timer schedule, and the heartbeat period.
pub struct InnerNamingListener {
    listeners: Vec<(String, ListenerValue)>,
    client_to_listener_map: Vec<(ClientAddr, Vec<String>)>,
    timeout_set: TimeoutSet,
    period: u64,
}

impl View for InnerNamingListener {
    type V = RegistryView;

    closed spec fn view(&self) -> RegistryView {
        RegistryView {
            listeners: lviews(self.listeners@),
            clients: cviews(self.client_to_listener_map@),
            timers: self.timeout_set@,
            period: self.period,
        }
    }
}

/// Index of the group of key `lk`, or none.
fn vec_find_listener(listeners: &Vec<(String, ListenerValue)>, lk: &String) -> (r: Option<usize>)
    ensures
        match r {
            Some(i) => listeners_find(lviews(listeners@), lk@) == i as int && i
                < listeners@.len(),
            None => listeners_find(lviews(listeners@), lk@) == -1,
        },
{
    let ghost p = lkey_pred(lk@);
    let ghost lv = lviews(listeners@);
    let n = listeners.len();
    let mut i: usize = 0;
    loop
        invariant
            p == lkey_pred(lk@),
            lv == lviews(listeners@),
            i <= n,
            n == lv.len(),
            forall|j: int| 0 <= j < i ==> !p(#[trigger] lv[j]),
        ensures
            i <= n,
            forall|j: int| 0 <= j < i ==> !p(#[trigger] lv[j]),
            i < n ==> p(lv[i as int]),
        decreases n - i,
    {
        if i == n {
            break;
        }
        if listeners[i].0.eq(lk) {
            assert(p(lv[i as int]));
            break;
        }
        assert(!p(lv[i as int]));
        i = i + 1;
    }
    proof {
        lemma_find_first_at(lv, p, i as int);
    }
    if i == n {
        None
    } else {
        Some(i)
    }
}

/// Index of the reverse-map entry of `addr`, or none.
fn vec_find_client(clients: &Vec<(ClientAddr, Vec<String>)>, addr: ClientAddr) -> (r: Option<
    usize,
>)
    ensures
        match r {
            Some(i) => clients_find(cviews(clients@), addr) == i as int && i < clients@.len(),
            None => clients_find(cviews(clients@), addr) == -1,
        },
{
    let ghost p = caddr_pred(addr);
    let ghost cv = cviews(clients@);
    let n = clients.len();
    let mut i: usize = 0;
    loop
        invariant
            p == caddr_pred(addr),
            cv == cviews(clients@),
            i <= n,
            n == cv.len(),
            forall|j: int| 0 <= j < i ==> !p(#[trigger] cv[j]),
        ensures
            i <= n,
            forall|j: int| 0 <= j < i ==> !p(#[trigger] cv[j]),
            i < n ==> p(cv[i as int]),
        decreases n - i,
    {
        if i == n {
            break;
        }
        if clients[i].0 == addr {
            assert(p(cv[i as int]));
            break;
        }
        assert(!p(cv[i as int]));
        i = i + 1;
    }
    proof {
        lemma_find_first_at(cv, p, i as int);
    }
    if i == n {
        None
    } else {
        Some(i)
    }
}

/// Index of `lk` in a key set, or none.
fn key_set_index(set: &Vec<String>, lk: &String) -> (r: Option<usize>)
    ensures
        match r {
            Some(i) => key_set_find(str_views(set@), lk@) == i as int && i < set@.len(),
            None => key_set_find(str_views(set@), lk@) == -1,
        },
{
    let ghost p = skey_pred(lk@);
    let ghost sv = str_views(set@);
    let n = set.len();
    let mut i: usize = 0;
    loop
        invariant
            p == skey_pred(lk@),
            sv == str_views(set@),
            i <= n,
            n == sv.len(),
            forall|j: int| 0 <= j < i ==> !p(#[trigger] sv[j]),
        ensures
            i <= n,
            forall|j: int| 0 <= j < i ==> !p(#[trigger] sv[j]),
            i < n ==> p(sv[i as int]),
        decreases n - i,
    {
        if i == n {
            break;
        }
        if set[i].eq(lk) {
            assert(p(sv[i as int]));
            break;
        }
        assert(!p(sv[i as int]));
        i = i + 1;
    }
    proof {
        lemma_find_first_at(sv, p, i as int);
    }
    if i == n {
        None
    } else {
        Some(i)
    }
}

impl InnerNamingListener {
    pub open spec fn wf(&self) -> bool {
        registry_wf(self@)
    }

    /// A fresh registry with the given heartbeat period.
    pub fn new(period: u64) -> (r: Self)
        requires
            period <= u64::MAX / 2,
        ensures
            r.wf(),
            r@.listeners == Seq::<(Seq<char>, Seq<ItemView>)>::empty(),
            r@.clients == Seq::<(ClientAddr, Seq<Seq<char>>)>::empty(),
            r@.timers == Seq::<TimerEntryView>::empty(),
            r@.period == period,
    {
        let r = InnerNamingListener {
            listeners: Vec::new(),
            client_to_listener_map: Vec::new(),
            timeout_set: TimeoutSet::new(),
            period,
        };
        proof {
            assert(r@.listeners =~= Seq::<(Seq<char>, Seq<ItemView>)>::empty());
            assert(r@.clients =~= Seq::<(ClientAddr, Seq<Seq<char>>)>::empty());
        }
        r
    }

    /// The canonical string of a service key.
    pub fn get_listener_key(key: &ServiceKey) -> (r: String)
        ensures
            r@ == canon_key(key@),
    {
        let mut out = String::new();
        out.append(key.namespace_id.as_str());
        out.append("\u{1}");
        out.append(key.group_name.as_str());
        out.append("\u{1}");
        out.append(key.service_name.as_str());
        proof {
            assert(out@ =~= canon_key(key@));
        }
        out
    }

    /// Associates `listener_key` with `addr` in the reverse client map.
    fn update_client_map(&mut self, addr: ClientAddr, listener_key: String)
        requires
            registry_wf(old(self)@),
        ensures
            final(self)@.clients == ucm_spec(old(self)@.clients, addr, listener_key@),
            final(self)@.listeners == old(self)@.listeners,
            final(self)@.timers == old(self)@.timers,
            final(self)@.period == old(self)@.period,
            registry_wf(final(self)@),
    {
        let ghost pre = self@.clients;
        let ghost kk = listener_key@;
        match vec_find_client(&self.client_to_listener_map, addr) {
            Some(ci) => {
                proof {
                    lemma_find_first_props(pre, caddr_pred(addr));
                }
                let ghost pre_pairs = self.client_to_listener_map@;
                let (a0, mut set) = self.client_to_listener_map.remove(ci);
                match key_set_index(&set, &listener_key) {
                    Some(_) => {
                        self.client_to_listener_map.insert(ci, (a0, set));
                        proof {
                            pre_pairs.remove_ensures(ci as int);
                            pre_pairs.remove(ci as int).insert_ensures(
                                ci as int,
                                self.client_to_listener_map@[ci as int],
                            );
                            assert(self@.clients =~= pre);
                        }
                    },
                    None => {
                        let ghost pre_set = set@;
                        set.push(listener_key);
                        proof {
                            assert(str_views(set@) =~= str_views(pre_set).push(kk));
                        }
                        self.client_to_listener_map.insert(ci, (a0, set));
                        proof {
                            pre_pairs.remove_ensures(ci as int);
                            pre_pairs.remove(ci as int).insert_ensures(
                                ci as int,
                                self.client_to_listener_map@[ci as int],
                            );
                            assert(self@.clients =~= pre.update(
                                ci as int,
                                (addr, pre[ci as int].1.push(kk)),
                            ));
                        }
                    },
                }
            },
            None => {
                proof {
                    lemma_find_first_props(pre, caddr_pred(addr));
                }
                let mut set: Vec<String> = Vec::new();
                set.push(listener_key);
                self.client_to_listener_map.push((addr, set));
                proof {
                    assert(str_views(self.client_to_listener_map@.last().1@) =~= seq![kk]);
                    assert(self@.clients =~= pre.push((addr, seq![kk])));
                }
            },
        }
        proof {
            let post = self@.clients;
            let v = ucm_spec(pre, addr, kk);
            assert(post =~= v);
            lemma_ucm_wf(pre, addr, kk);
            let w = self@;
            assert(w.listeners == old(self)@.listeners);
            assert(w.timers == old(self)@.timers);
            assert(forall|i: int| 0 <= i < w.listeners.len() ==> items_wf(
                (#[trigger] w.listeners[i]).1,
            ));
            assert(forall|i: int, j: int|
                0 <= i < j < w.clients.len() ==> (#[trigger] w.clients[i]).0 != (
                #[trigger] w.clients[j]).0);
            assert(forall|i: int| 0 <= i < w.clients.len() ==> (#[trigger] w.clients[i]).1.len()
                > 0);
            assert(forall|i: int, a: int, b: int|
                #![trigger w.clients[i].1[a], w.clients[i].1[b]]
                0 <= i < w.clients.len() && 0 <= a < b < w.clients[i].1.len() ==> w.clients[i].1[a]
                    != w.clients[i].1[b]);
            assert(registry_wf(w));
        }
    }

    /// Registers a subscription: finds or creates the key's group, arms
    /// the first timer when the group is new, delegates the entry, and
    /// records the key under the client's address.
    pub fn add(&mut self, key: ServiceKey, item: ListenerItem, now: u64)
        requires
            registry_wf(old(self)@),
            item.wf(),
            now <= u64::MAX - old(self)@.period,
        ensures
            registry_wf(final(self)@),
            add_post(old(self)@, final(self)@, key@, item@, now),
    {
        let ghost prev = self@;
        let ghost ck = canon_key(key@);
        let ghost itv = item@;
        let addr = item.listener_addr;
        let listener_key = Self::get_listener_key(&key);
        match vec_find_listener(&self.listeners, &listener_key) {
            Some(li) => {
                proof {
                    lemma_find_first_props(prev.listeners, lkey_pred(ck));
                }
                let ghost pre_pairs = self.listeners@;
                let (k0, mut value) = self.listeners.remove(li);
                value.add(item, now);
                self.listeners.insert(li, (k0, value));
                proof {
                    pre_pairs.remove_ensures(li as int);
                    pre_pairs.remove(li as int).insert_ensures(
                        li as int,
                        self.listeners@[li as int],
                    );
                    assert(self@.listeners =~= prev.listeners.update(
                        li as int,
                        (ck, add_spec(prev.listeners[li as int].1, itv, now)),
                    ));
                }
            },
            None => {
                let mut value = ListenerValue::new();
                value.add(item, now);
                let lk2 = listener_key.clone();
                self.listeners.push((lk2, value));
                self.timeout_set.add(now + self.period, key);
                proof {
                    assert(self@.listeners =~= prev.listeners.push(
                        (ck, add_spec(Seq::<ItemView>::empty(), itv, now)),
                    ));
                }
            },
        }
        proof {
            lemma_add_groups_wf(prev, self@, ck, itv, now);
            assert(self@.clients == prev.clients);
            assert(registry_wf(self@));
        }
        self.update_client_map(addr, listener_key);
    }

    /// Refreshes liveness for every subscription of `addr`; an unknown
    /// address is a no-op.
    pub fn client_response(&mut self, addr: &ClientAddr, now: u64)
        requires
            registry_wf(old(self)@),
        ensures
            registry_wf(final(self)@),
            ack_post(old(self)@, final(self)@, *addr, now),
    {
        let ghost prev = self@;
        let ci_opt = vec_find_client(&self.client_to_listener_map, *addr);
        match ci_opt {
            Some(ci) => {
                let ghost civ = ci as int;
                let nkeys = self.client_to_listener_map[ci].1.len();
                let mut j: usize = 0;
                proof {
                    assert(prev.clients[civ].1 == str_views(
                        self.client_to_listener_map@[civ].1@,
                    ));
                }
                while j < nkeys
                    invariant
                        civ == ci as int,
                        registry_wf(prev),
                        0 <= civ < prev.clients.len(),
                        clients_find(prev.clients, *addr) == civ,
                        j <= nkeys,
                        civ < self.client_to_listener_map@.len(),
                        self@.clients == prev.clients,
                        self@.timers == prev.timers,
                        self@.period == prev.period,
                        nkeys == prev.clients[civ].1.len(),
                        self@.listeners.len() == prev.listeners.len(),
                        forall|li: int|
                            0 <= li < prev.listeners.len() ==> #[trigger] self@.listeners[li]
                                == ack_entry(prev, *addr, now, j as int, civ, li),
                    decreases nkeys - j,
                {
                    proof {
                        assert(self@.clients[civ] == prev.clients[civ]);
                        assert(str_views(self.client_to_listener_map@[civ].1@)
                            == prev.clients[civ].1);
                        assert(self.client_to_listener_map@[civ].1@.len() == nkeys);
                    }
                    let k = self.client_to_listener_map[ci].1[j].clone();
                    proof {
                        assert(k@ == prev.clients[civ].1[j as int]);
                    }
                    let ghost base = self@.listeners;
                    let li_opt = vec_find_listener(&self.listeners, &k);
                    match li_opt {
                        Some(li) => {
                            proof {
                                lemma_find_first_props(base, lkey_pred(k@));
                                assert(base[li as int] == ack_entry(
                                    prev,
                                    *addr,
                                    now,
                                    j as int,
                                    civ,
                                    li as int,
                                ));
                                if key_set_find(
                                    prev.clients[civ].1.subrange(0, j as int),
                                    prev.listeners[li as int].0,
                                ) >= 0 {
                                    lemma_response_wf(prev.listeners[li as int].1, *addr, now);
                                } else {
                                }
                                assert(items_wf(base[li as int].1));
                            }
                            let ghost pre_pairs = self.listeners@;
                            let (k0, mut value) = self.listeners.remove(li);
                            proof {
                                assert(value@ == base[li as int].1);
                            }
                            value.response(addr, now);
                            self.listeners.insert(li, (k0, value));
                            proof {
                                pre_pairs.remove_ensures(li as int);
                                pre_pairs.remove(li as int).insert_ensures(
                                    li as int,
                                    self.listeners@[li as int],
                                );
                                assert(self@.listeners =~= base.update(
                                    li as int,
                                    (k@, response_spec(base[li as int].1, *addr, now)),
                                ));
                            }
                        },
                        None => {},
                    }
                    proof {
                        lemma_ack_step(prev, base, self@.listeners, civ, j as int, *addr, now);
                    }
                    j = j + 1;
                }
                proof {
                    assert(prev.clients[civ].1.subrange(0, nkeys as int) =~= prev.clients[civ].1);
                    assert forall|li: int|
                        0 <= li < prev.listeners.len() implies self@.listeners[li]
                        == ack_listeners_spec(prev, *addr, now)[li] by {
                        assert(self@.listeners[li] == ack_entry(
                            prev,
                            *addr,
                            now,
                            nkeys as int,
                            civ,
                            li,
                        ));
                    }
                    assert(self@.listeners =~= ack_listeners_spec(prev, *addr, now));
                    lemma_ack_wf(prev, self@, *addr, now);
                }
            },
            None => {
                proof {
                    assert(self@.listeners =~= ack_listeners_spec(prev, *addr, now));
                }
            },
        }
    }
}

impl InnerNamingListener {
    /// One notify cycle for `service_key`: an unknown key is a no-op;
    /// otherwise the group runs its cycle, a group left empty is deleted
    /// from the map, and every evicted address loses this key in the
    /// reverse map.  Returns the datagrams to hand to the transport.
    pub fn notify(
        &mut self,
        service_key: ServiceKey,
        sign: String,
        instances: &InstanceTable,
        now: u64,
    ) -> (r: Vec<Datagram>)
        requires
            registry_wf(old(self)@),
        ensures
            registry_wf(final(self)@),
            notify_post(old(self)@, final(self)@, service_key@, instances@, now, dgram_views(r@)),
    {
        let ghost prev = self@;
        let ghost ck = canon_key(service_key@);
        let listener_key = Self::get_listener_key(&service_key);
        let li_opt = vec_find_listener(&self.listeners, &listener_key);
        match li_opt {
            None => {
                let r: Vec<Datagram> = Vec::new();
                proof {
                    assert(dgram_views(r@).len() == 0);
                }
                r
            },
            Some(li) => {
                proof {
                    lemma_find_first_props(prev.listeners, lkey_pred(ck));
                }
                let ghost cutoff = cutoff_of(now, prev.period);
                let ghost group = prev.listeners[li as int].1;
                let ghost surv = survivors(group, cutoff);
                let ghost evicted = evicted_addrs(group, cutoff);
                let ghost pre_pairs = self.listeners@;
                let (k0, mut value) = self.listeners.remove(li);
                proof {
                    assert(value@ == group);
                    assert(k0@ == ck);
                    assert(items_wf(group));
                }
                let nres = value.notify(&service_key, instances, self.period, now);
                let removes = nres.0;
                let sends = nres.1;
                if value.is_empty() {
                    proof {
                        pre_pairs.remove_ensures(li as int);
                        assert(self@.listeners =~= prev.listeners.remove(li as int));
                        assert(mark_sent(surv, now).len() == 0);
                        assert(surv.len() == 0);
                        assert forall|i: int|
                            0 <= i < self@.listeners.len() implies items_wf(
                            (#[trigger] self@.listeners[i]).1,
                        ) && self@.listeners[i].1.len() > 0 by {
                            assert(self@.listeners[i] == if i < li as int {
                                prev.listeners[i]
                            } else {
                                prev.listeners[i + 1]
                            });
                        }
                        assert forall|i: int, j: int|
                            0 <= i < j < self@.listeners.len() implies (
                        #[trigger] self@.listeners[i]).0 != (#[trigger] self@.listeners[j]).0 by {
                            assert(self@.listeners[i] == if i < li as int {
                                prev.listeners[i]
                            } else {
                                prev.listeners[i + 1]
                            });
                            assert(self@.listeners[j] == if j < li as int {
                                prev.listeners[j]
                            } else {
                                prev.listeners[j + 1]
                            });
                        }
                    }
                } else {
                    self.listeners.insert(li, (k0, value));
                    proof {
                        pre_pairs.remove_ensures(li as int);
                        pre_pairs.remove(li as int).insert_ensures(
                            li as int,
                            self.listeners@[li as int],
                        );
                        assert(self@.listeners =~= prev.listeners.update(
                            li as int,
                            (ck, mark_sent(surv, now)),
                        ));
                        assert forall|i: int|
                            0 <= i < self@.listeners.len() implies items_wf(
                            (#[trigger] self@.listeners[i]).1,
                        ) && self@.listeners[i].1.len() > 0 by {
                            if i != li as int {
                                assert(self@.listeners[i] == prev.listeners[i]);
                            } else {
                                assert(self@.listeners[i].1 == mark_sent(surv, now));
                            }
                        }
                        assert forall|i: int, j: int|
                            0 <= i < j < self@.listeners.len() implies (
                        #[trigger] self@.listeners[i]).0 != (#[trigger] self@.listeners[j]).0 by {
                            assert(self@.listeners[i].0 == prev.listeners[i].0);
                            assert(self@.listeners[j].0 == prev.listeners[j].0);
                        }
                    }
                }
                // keep the reverse map consistent with the evictions
                let ghost listeners1 = self@.listeners;
                let ghost clients0 = self@.clients;
                proof {
                    assert(clients0 == prev.clients);
                    assert(removes@ == evicted);
                    assert(clean_clients(self@.clients, removes@.skip(0), ck) == clean_clients(
                        clients0,
                        removes@,
                        ck,
                    )) by {
                        assert(removes@.skip(0) =~= removes@);
                    }
                }
                let n_rm = removes.len();
                let mut ri: usize = 0;
                while ri < n_rm
                    invariant
                        ck == canon_key(service_key@),
                        listener_key@ == ck,
                        ri <= n_rm,
                        n_rm == removes@.len(),
                        self@.listeners == listeners1,
                        self@.timers == prev.timers,
                        self@.period == prev.period,
                        clean_clients(self@.clients, removes@.skip(ri as int), ck)
                            == clean_clients(clients0, removes@, ck),
                        forall|i: int, j: int|
                            0 <= i < j < self@.clients.len() ==> (#[trigger] self@.clients[i]).0
                                != (#[trigger] self@.clients[j]).0,
                        forall|i: int|
                            0 <= i < self@.clients.len() ==> (#[trigger] self@.clients[i]).1.len()
                                > 0,
                        forall|i: int, a: int, b: int|
                            #![trigger self@.clients[i].1[a], self@.clients[i].1[b]]
                            0 <= i < self@.clients.len() && 0 <= a < b
                                < self@.clients[i].1.len() ==> self@.clients[i].1[a]
                                != self@.clients[i].1[b],
                    decreases n_rm - ri,
                {
                    let ghost cur = self@.clients;
                    let a = removes[ri];
                    let ci_opt = vec_find_client(&self.client_to_listener_map, a);
                    match ci_opt {
                        Some(ci) => {
                            proof {
                                lemma_find_first_props(cur, caddr_pred(a));
                            }
                            let ghost pre_cpairs = self.client_to_listener_map@;
                            let (a0, mut set) = self.client_to_listener_map.remove(ci);
                            proof {
                                assert(str_views(set@) == cur[ci as int].1);
                                assert(caddr_pred(a)(cur[ci as int]));
                                assert(a0 == cur[ci as int].0);
                            }
                            let si_opt = key_set_index(&set, &listener_key);
                            match si_opt {
                                Some(si) => {
                                    let ghost pre_set = set@;
                                    set.remove(si);
                                    proof {
                                        pre_set.remove_ensures(si as int);
                                        assert forall|x: int|
                                            0 <= x < str_views(set@).len() implies str_views(
                                            set@,
                                        )[x] == str_views(pre_set).remove(si as int)[x] by {
                                            if x < si as int {
                                                assert(set@[x] == pre_set[x]);
                                            } else {
                                                assert(set@[x] == pre_set[x + 1]);
                                            }
                                        }
                                        assert(str_views(set@) =~= str_views(pre_set).remove(
                                            si as int,
                                        ));
                                    }
                                    if set.len() == 0 {
                                        proof {
                                            pre_cpairs.remove_ensures(ci as int);
                                            assert(self@.clients =~= cur.remove(ci as int));
                                            assert(self@.clients == clean_one(cur, a, ck));
                                        }
                                    } else {
                                        self.client_to_listener_map.insert(ci, (a0, set));
                                        proof {
                                            pre_cpairs.remove_ensures(ci as int);
                                            pre_cpairs.remove(ci as int).insert_ensures(
                                                ci as int,
                                                self.client_to_listener_map@[ci as int],
                                            );
                                            assert(a0 == a);
                                            assert(key_set_find(cur[ci as int].1, ck)
                                                == si as int);
                                            assert(str_views(set@) == cur[ci as int].1.remove(
                                                si as int,
                                            ));
                                            assert(self@.clients =~= cur.update(
                                                ci as int,
                                                (a, cur[ci as int].1.remove(
                                                    key_set_find(cur[ci as int].1, ck),
                                                )),
                                            ));
                                            assert(self@.clients == clean_one(cur, a, ck));
                                        }
                                    }
                                },
                                None => {
                                    self.client_to_listener_map.insert(ci, (a0, set));
                                    proof {
                                        pre_cpairs.remove_ensures(ci as int);
                                        pre_cpairs.remove(ci as int).insert_ensures(
                                            ci as int,
                                            self.client_to_listener_map@[ci as int],
                                        );
                                        assert(self@.clients =~= cur);
                                        assert(self@.clients == clean_one(cur, a, ck));
                                    }
                                },
                            }
                        },
                        None => {
                            proof {
                                assert(self@.clients == clean_one(cur, a, ck));
                            }
                        },
                    }
                    proof {
                        lemma_clean_one_wf(cur, a, ck);
                        assert(removes@.skip(ri as int)[0] == removes@[ri as int]);
                        assert(removes@.skip(ri as int).skip(1) =~= removes@.skip(ri + 1));
                        assert(clean_clients(cur, removes@.skip(ri as int), ck) == clean_clients(
                            clean_one(cur, removes@[ri as int], ck),
                            removes@.skip(ri + 1),
                            ck,
                        ));
                    }
                    ri = ri + 1;
                }
                proof {
                    assert(removes@.skip(n_rm as int).len() == 0);
                    assert(self@.clients == clean_clients(clients0, removes@, ck));
                    assert(registry_wf(self@));
                }
                sends
            },
        }
    }

    /// Drains every due timer entry, re-arms each drained key at
    /// `now + period`, and returns the drained keys so that the owner can
    /// ask the registry source to push for them.  An empty schedule
    /// produces no keys and changes nothing.
    pub fn heartbeat_tick(&mut self, now: u64) -> (r: Vec<ServiceKey>)
        requires
            registry_wf(old(self)@),
            now <= u64::MAX - old(self)@.period,
        ensures
            registry_wf(final(self)@),
            r@.len() == first_after(old(self)@.timers, now),
            forall|i: int|
                0 <= i < r@.len() ==> (#[trigger] r@[i])@ == old(self)@.timers[i].key,
            final(self)@.timers == rearm_all(
                old(self)@.timers.skip(first_after(old(self)@.timers, now)),
                keys_views(r@),
                (now + old(self)@.period) as u64,
            ),
            final(self)@.listeners == old(self)@.listeners,
            final(self)@.clients == old(self)@.clients,
            final(self)@.period == old(self)@.period,
    {
        let ghost prev = self@;
        let keys = self.timeout_set.timeout(now);
        let ghost after_drain = self@.timers;
        let ghost kv = keys_views(keys@);
        let e = now + self.period;
        let n = keys.len();
        let mut i: usize = 0;
        proof {
            assert(kv.skip(0) =~= kv);
        }
        while i < n
            invariant
                i <= n,
                n == keys@.len(),
                kv == keys_views(keys@),
                e == now + prev.period,
                expiry_sorted(self@.timers),
                self@.listeners == prev.listeners,
                self@.clients == prev.clients,
                self@.period == prev.period,
                rearm_all(self@.timers, kv.skip(i as int), e) == rearm_all(after_drain, kv, e),
            decreases n - i,
        {
            let ghost cur = self@.timers;
            let k2 = keys[i].clone();
            proof {
                assert(k2@ == kv[i as int]);
            }
            self.timeout_set.add(e, k2);
            proof {
                assert(self@.timers == cur.insert(
                    first_after(cur, e),
                    TimerEntryView { expiry: e, key: kv[i as int] },
                ));
                assert(kv.skip(i as int)[0] == kv[i as int]);
                assert(kv.skip(i as int).skip(1) =~= kv.skip(i + 1));
                assert(rearm_all(cur, kv.skip(i as int), e) == rearm_all(
                    self@.timers,
                    kv.skip(i + 1),
                    e,
                ));
            }
            i = i + 1;
        }
        proof {
            assert(kv.skip(n as int).len() == 0);
            assert(rearm_all(self@.timers, kv.skip(n as int), e) == self@.timers);
        }
        keys
    }

    /// Processes one command: registers or replaces a subscription,
    /// refreshes liveness, runs a notify cycle, or arms one heartbeat
    /// timer.  Returns the datagrams to transmit; every command succeeds.
    pub fn handle(&mut self, msg: NamingListenerCmd, now: u64) -> (r: Vec<Datagram>)
        requires
            registry_wf(old(self)@),
            now <= u64::MAX - old(self)@.period,
            msg matches NamingListenerCmd::Add(k, item) ==> item.wf(),
        ensures
            registry_wf(final(self)@),
            match msg {
                NamingListenerCmd::Add(key, item) => add_post(
                    old(self)@,
                    final(self)@,
                    key@,
                    item@,
                    now,
                ) && r@.len() == 0,
                NamingListenerCmd::Response(addr) => ack_post(old(self)@, final(self)@, addr, now)
                    && r@.len() == 0,
                NamingListenerCmd::Notify(key, sign, instances) => notify_post(
                    old(self)@,
                    final(self)@,
                    key@,
                    instances@,
                    now,
                    dgram_views(r@),
                ),
                NamingListenerCmd::AddHeartbeat(key) => arm_post(
                    old(self)@,
                    final(self)@,
                    key@,
                    now,
                ) && r@.len() == 0,
            },
    {
        match msg {
            NamingListenerCmd::Add(service_key, listener_item) => {
                self.add(service_key, listener_item, now);
                Vec::new()
            },
            NamingListenerCmd::Response(socket_addr) => {
                self.client_response(&socket_addr, now);
                Vec::new()
            },
            NamingListenerCmd::Notify(service_key, sign, instances) => {
                self.notify(service_key, sign, &instances, now)
            },
            NamingListenerCmd::AddHeartbeat(service_key) => {
                let ghost prev = self@;
                self.timeout_set.add(now + self.period, service_key);
                proof {
                    assert(self@.listeners == prev.listeners);
                    assert(self@.clients == prev.clients);
                }
                Vec::new()
            },
        }
    }
}

/// The empty-group law: once a notify cycle has evicted the last
/// subscriber of a key, the key is absent from the group map, so a later
/// heartbeat-triggered notify for it finds nothing and is a harmless
/// no-op.
pub proof fn lemma_empty_group_gone(ls: Seq<(Seq<char>, Seq<ItemView>)>, li: int, ck: Seq<char>)
    requires
        0 <= li < ls.len(),
        ls[li].0 == ck,
        forall|i: int, j: int| 0 <= i < j < ls.len() ==> (#[trigger] ls[i]).0 != (#[trigger] ls[j]).0,
    ensures
        listeners_find(ls.remove(li), ck) == -1,
{
    let v = ls.remove(li);
    ls.remove_ensures(li);
    assert forall|i: int| 0 <= i < v.len() implies !lkey_pred(ck)(#[trigger] v[i]) by {
        if i < li {
            assert(v[i] == ls[i]);
        } else {
            assert(v[i] == ls[i + 1]);
        }
    }
    lemma_find_first_at(v, lkey_pred(ck), v.len() as int);
}

/// The address `a` is not tied to the key `ck` in the reverse map: either
/// the address has no entry, or its key set lacks `ck`.
pub open spec fn key_detached(
    cs: Seq<(ClientAddr, Seq<Seq<char>>)>,
    a: ClientAddr,
    ck: Seq<char>,
) -> bool {
    let i = clients_find(cs, a);
    i >= 0 ==> key_set_find(cs[i].1, ck) == -1
}

/// Cleaning an address detaches it from the key.
proof fn lemma_clean_one_detaches(cs: Seq<(ClientAddr, Seq<Seq<char>>)>, a: ClientAddr, ck: Seq<char>)
    requires
        forall|i: int, j: int|
            0 <= i < j < cs.len() ==> (#[trigger] cs[i]).0 != (#[trigger] cs[j]).0,
        forall|i: int, x: int, y: int|
            #![trigger cs[i].1[x], cs[i].1[y]]
            0 <= i < cs.len() && 0 <= x < y < cs[i].1.len() ==> cs[i].1[x] != cs[i].1[y],
    ensures
        key_detached(clean_one(cs, a, ck), a, ck),
{
    let v = clean_one(cs, a, ck);
    let ci = clients_find(cs, a);
    lemma_find_first_props(cs, caddr_pred(a));
    if ci >= 0 {
        let set = cs[ci].1;
        let j = key_set_find(set, ck);
        lemma_find_first_props(set, skey_pred(ck));
        if j >= 0 {
            let set2 = set.remove(j);
            set.remove_ensures(j);
            if set2.len() == 0 {
                // the whole entry is gone, and no other entry has this address
                cs.remove_ensures(ci);
                assert forall|x: int| 0 <= x < v.len() implies !caddr_pred(a)(#[trigger] v[x]) by {
                    if x < ci {
                        assert(v[x] == cs[x]);
                    } else {
                        assert(v[x] == cs[x + 1]);
                    }
                }
                lemma_find_first_at(v, caddr_pred(a), v.len() as int);
            } else {
                // the entry keeps its place; its set has lost the only `ck`
                assert forall|x: int| 0 <= x < ci implies !caddr_pred(a)(#[trigger] v[x]) by {
                    assert(v[x] == cs[x]);
                }
                assert(caddr_pred(a)(v[ci]));
                lemma_find_first_at(v, caddr_pred(a), ci);
                assert forall|x: int| 0 <= x < set2.len() implies !skey_pred(ck)(
                    #[trigger] set2[x],
                ) by {
                    if x < j {
                        assert(set2[x] == set[x]);
                    } else {
                        assert(set2[x] == set[x + 1]);
                    }
                }
                lemma_find_first_at(set2, skey_pred(ck), set2.len() as int);
            }
        }
    }
}

/// Cleaning any address leaves an already detached address detached.
proof fn lemma_clean_one_keeps_detached(
    cs: Seq<(ClientAddr, Seq<Seq<char>>)>,
    b: ClientAddr,
    a: ClientAddr,
    ck: Seq<char>,
)
    requires
        key_detached(cs, a, ck),
        forall|i: int, j: int|
            0 <= i < j < cs.len() ==> (#[trigger] cs[i]).0 != (#[trigger] cs[j]).0,
        forall|i: int, x: int, y: int|
            #![trigger cs[i].1[x], cs[i].1[y]]
            0 <= i < cs.len() && 0 <= x < y < cs[i].1.len() ==> cs[i].1[x] != cs[i].1[y],
    ensures
        key_detached(clean_one(cs, b, ck), a, ck),
{
    if a == b {
        lemma_clean_one_detaches(cs, b, ck);
    } else {
        let v = clean_one(cs, b, ck);
        let cb = clients_find(cs, b);
        let ca = clients_find(cs, a);
        lemma_find_first_props(cs, caddr_pred(b));
        lemma_find_first_props(cs, caddr_pred(a));
        if cb >= 0 {
            let j = key_set_find(cs[cb].1, ck);
            if j >= 0 {
                let set2 = cs[cb].1.remove(j);
                if set2.len() == 0 {
                    cs.remove_ensures(cb);
                    if ca >= 0 {
                        // a's entry is still there, shifted past the removed one
                        assert(ca != cb);
                        let ia = if ca < cb {
                            ca
                        } else {
                            ca - 1
                        };
                        assert forall|x: int| 0 <= x < ia implies !caddr_pred(a)(
                            #[trigger] v[x],
                        ) by {
                            if x < cb {
                                assert(v[x] == cs[x]);
                            } else {
                                assert(v[x] == cs[x + 1]);
                            }
                        }
                        assert(v[ia] == cs[ca]);
                        lemma_find_first_at(v, caddr_pred(a), ia);
                    } else {
                        assert forall|x: int| 0 <= x < v.len() implies !caddr_pred(a)(
                            #[trigger] v[x],
                        ) by {
                            if x < cb {
                                assert(v[x] == cs[x]);
                            } else {
                                assert(v[x] == cs[x + 1]);
                            }
                        }
                        lemma_find_first_at(v, caddr_pred(a), v.len() as int);
                    }
                } else {
                    // only b's set changed; a's entry is untouched
                    if ca >= 0 {
                        assert(ca != cb);
                        assert forall|x: int| 0 <= x < ca implies !caddr_pred(a)(
                            #[trigger] v[x],
                        ) by {
                            assert(v[x].0 == cs[x].0);
                        }
                        assert(v[ca] == cs[ca]);
                        lemma_find_first_at(v, caddr_pred(a), ca);
                    } else {
                        assert forall|x: int| 0 <= x < v.len() implies !caddr_pred(a)(
                            #[trigger] v[x],
                        ) by {
                            assert(v[x].0 == cs[x].0);
                        }
                        lemma_find_first_at(v, caddr_pred(a), v.len() as int);
                    }
                }
            }
        }
    }
}

/// The eviction law, reverse-map half: after the cleanup that follows a notify
/// cycle, every evicted address is detached from the service's canonical
/// key: it either left the reverse map or lost that key from its set.
pub proof fn lemma_eviction_cleans_reverse_map(
    cs: Seq<(ClientAddr, Seq<Seq<char>>)>,
    removes: Seq<ClientAddr>,
    ck: Seq<char>,
    w: int,
)
    requires
        0 <= w < removes.len(),
        forall|i: int, j: int|
            0 <= i < j < cs.len() ==> (#[trigger] cs[i]).0 != (#[trigger] cs[j]).0,
        forall|i: int| 0 <= i < cs.len() ==> (#[trigger] cs[i]).1.len() > 0,
        forall|i: int, x: int, y: int|
            #![trigger cs[i].1[x], cs[i].1[y]]
            0 <= i < cs.len() && 0 <= x < y < cs[i].1.len() ==> cs[i].1[x] != cs[i].1[y],
    ensures
        key_detached(clean_clients(cs, removes, ck), removes[w], ck),
    decreases removes.len(),
{
    let cs1 = clean_one(cs, removes[0], ck);
    lemma_clean_one_wf(cs, removes[0], ck);
    if w == 0 {
        lemma_clean_one_detaches(cs, removes[0], ck);
        lemma_clean_keeps_detached(cs1, removes.skip(1), removes[0], ck);
    } else {
        lemma_eviction_cleans_reverse_map(cs1, removes.skip(1), ck, w - 1);
        assert(removes.skip(1)[w - 1] == removes[w]);
    }
}

/// The whole cleanup leaves an already detached address detached.
proof fn lemma_clean_keeps_detached(
    cs: Seq<(ClientAddr, Seq<Seq<char>>)>,
    removes: Seq<ClientAddr>,
    a: ClientAddr,
    ck: Seq<char>,
)
    requires
        key_detached(cs, a, ck),
        forall|i: int, j: int|
            0 <= i < j < cs.len() ==> (#[trigger] cs[i]).0 != (#[trigger] cs[j]).0,
        forall|i: int| 0 <= i < cs.len() ==> (#[trigger] cs[i]).1.len() > 0,
        forall|i: int, x: int, y: int|
            #![trigger cs[i].1[x], cs[i].1[y]]
            0 <= i < cs.len() && 0 <= x < y < cs[i].1.len() ==> cs[i].1[x] != cs[i].1[y],
    ensures
        key_detached(clean_clients(cs, removes, ck), a, ck),
    decreases removes.len(),
{
    if removes.len() > 0 {
        lemma_clean_one_keeps_detached(cs, removes[0], a, ck);
        lemma_clean_one_wf(cs, removes[0], ck);
        lemma_clean_keeps_detached(clean_one(cs, removes[0], ck), removes.skip(1), a, ck);
    }
}

/// `clean_one` preserves the reverse map's well-formedness.
proof fn lemma_clean_one_wf(cs: Seq<(ClientAddr, Seq<Seq<char>>)>, a: ClientAddr, ck: Seq<char>)
    requires
        forall|i: int, j: int|
            0 <= i < j < cs.len() ==> (#[trigger] cs[i]).0 != (#[trigger] cs[j]).0,
        forall|i: int| 0 <= i < cs.len() ==> (#[trigger] cs[i]).1.len() > 0,
        forall|i: int, x: int, y: int|
            #![trigger cs[i].1[x], cs[i].1[y]]
            0 <= i < cs.len() && 0 <= x < y < cs[i].1.len() ==> cs[i].1[x] != cs[i].1[y],
    ensures
        ({
            let v = clean_one(cs, a, ck);
            &&& forall|i: int, j: int|
                0 <= i < j < v.len() ==> (#[trigger] v[i]).0 != (#[trigger] v[j]).0
            &&& forall|i: int| 0 <= i < v.len() ==> (#[trigger] v[i]).1.len() > 0
            &&& forall|i: int, x: int, y: int|
                #![trigger v[i].1[x], v[i].1[y]]
                0 <= i < v.len() && 0 <= x < y < v[i].1.len() ==> v[i].1[x] != v[i].1[y]
        }),
{
    let v = clean_one(cs, a, ck);
    let ci = clients_find(cs, a);
    lemma_find_first_props(cs, caddr_pred(a));
    if ci >= 0 {
        let jj = key_set_find(cs[ci].1, ck);
        lemma_find_first_props(cs[ci].1, skey_pred(ck));
        if jj >= 0 {
            let set2 = cs[ci].1.remove(jj);
            cs[ci].1.remove_ensures(jj);
            if set2.len() == 0 {
                cs.remove_ensures(ci);
                assert forall|i: int, j: int|
                    0 <= i < j < v.len() implies (#[trigger] v[i]).0 != (#[trigger] v[j]).0 by {
                    assert(v[i] == if i < ci {
                        cs[i]
                    } else {
                        cs[i + 1]
                    });
                    assert(v[j] == if j < ci {
                        cs[j]
                    } else {
                        cs[j + 1]
                    });
                }
                assert forall|i: int| 0 <= i < v.len() implies (#[trigger] v[i]).1.len() > 0 by {
                    assert(v[i] == if i < ci {
                        cs[i]
                    } else {
                        cs[i + 1]
                    });
                }
                assert forall|i: int, x: int, y: int|
                    0 <= i < v.len() && 0 <= x < y < v[i].1.len() implies #[trigger] v[i].1[x] != (
                #[trigger] v[i].1[y]) by {
                    assert(v[i] == if i < ci {
                        cs[i]
                    } else {
                        cs[i + 1]
                    });
                }
            } else {
                assert forall|i: int, x: int, y: int|
                    0 <= i < v.len() && 0 <= x < y < v[i].1.len() implies #[trigger] v[i].1[x] != (
                #[trigger] v[i].1[y]) by {
                    if i == ci {
                        assert(v[i].1 == set2);
                        assert(set2[x] == if x < jj {
                            cs[ci].1[x]
                        } else {
                            cs[ci].1[x + 1]
                        });
                        assert(set2[y] == if y < jj {
                            cs[ci].1[y]
                        } else {
                            cs[ci].1[y + 1]
                        });
                    } else {
                        assert(v[i] == cs[i]);
                    }
                }
                assert forall|i: int, j: int|
                    0 <= i < j < v.len() implies (#[trigger] v[i]).0 != (#[trigger] v[j]).0 by {
                    assert(v[i].0 == cs[i].0);
                    assert(v[j].0 == cs[j].0);
                }
                assert forall|i: int| 0 <= i < v.len() implies (#[trigger] v[i]).1.len() > 0 by {
                    if i != ci {
                        assert(v[i] == cs[i]);
                    }
                }
            }
        }
    }
}

// ---------------------------------------------------------------------------
// Bidirectional consistency of the two maps.
// ---------------------------------------------------------------------------

/// The two directions of the index agree: every key in a client's set
/// names a group that holds an entry for that client, and every group
/// entry's address is in the reverse map with that group's key.
pub open spec fn cross_consistent(v: RegistryView) -> bool {
    &&& forall|ci: int, ki: int|
        #![trigger v.clients[ci].1[ki]]
        0 <= ci < v.clients.len() && 0 <= ki < v.clients[ci].1.len() ==> {
            let li = listeners_find(v.listeners, v.clients[ci].1[ki]);
            li >= 0 && find_addr(v.listeners[li].1, v.clients[ci].0) >= 0
        }
    &&& forall|li: int, ii: int|
        #![trigger v.listeners[li].1[ii]]
        0 <= li < v.listeners.len() && 0 <= ii < v.listeners[li].1.len() ==> {
            let ci = clients_find(v.clients, v.listeners[li].1[ii].listener_addr);
            ci >= 0 && key_set_find(v.clients[ci].1, v.listeners[li].0) >= 0
        }
}

/// `ArmHeartbeat` touches only the timers, so the index stays consistent.
pub proof fn lemma_arm_keeps_index(pre: RegistryView, post: RegistryView, k: ServiceKeyView, now: u64)
    requires
        cross_consistent(pre),
        arm_post(pre, post, k, now),
    ensures
        cross_consistent(post),
{
}

/// An acknowledge changes liveness timestamps only: group keys and group
/// membership stay as they were.
proof fn lemma_response_spec_addrs(s: Seq<ItemView>, a: ClientAddr, now: u64)
    ensures
        response_spec(s, a, now).len() == s.len(),
        forall|x: int|
            0 <= x < s.len() ==> (#[trigger] response_spec(s, a, now)[x]).listener_addr
                == s[x].listener_addr,
{
    let i = find_addr(s, a);
    lemma_find_first_props(s, addr_pred(a));
}

/// `Acknowledge` keeps the bidirectional index consistent.
pub proof fn lemma_acknowledge_keeps_index(
    pre: RegistryView,
    post: RegistryView,
    a: ClientAddr,
    now: u64,
)
    requires
        cross_consistent(pre),
        ack_post(pre, post, a, now),
    ensures
        cross_consistent(post),
{
    assert(post.listeners.len() == pre.listeners.len());
    assert forall|li: int| 0 <= li < pre.listeners.len() implies (#[trigger] post.listeners[li]).0
        == pre.listeners[li].0 && post.listeners[li].1.len() == pre.listeners[li].1.len()
        && (forall|x: int|
        0 <= x < pre.listeners[li].1.len() ==> (#[trigger] post.listeners[li].1[x]).listener_addr
            == pre.listeners[li].1[x].listener_addr) by {
        lemma_response_spec_addrs(pre.listeners[li].1, a, now);
    }
    assert forall|ci: int, ki: int|
        0 <= ci < post.clients.len() && 0 <= ki < post.clients[ci].1.len() implies {
        let li = listeners_find(post.listeners, #[trigger] post.clients[ci].1[ki]);
        li >= 0 && find_addr(post.listeners[li].1, post.clients[ci].0) >= 0
    } by {
        let key = pre.clients[ci].1[ki];
        let li = listeners_find(pre.listeners, key);
        assert(pre.clients[ci].1[ki] == key);
        lemma_find_first_props(pre.listeners, lkey_pred(key));
        assert(0 <= li < pre.listeners.len());
        lemma_find_first_pointwise(pre.listeners, post.listeners, lkey_pred(key), lkey_pred(key));
        lemma_find_first_pointwise(
            pre.listeners[li].1,
            post.listeners[li].1,
            addr_pred(pre.clients[ci].0),
            addr_pred(pre.clients[ci].0),
        );
    }
    assert forall|li: int, ii: int|
        0 <= li < post.listeners.len() && 0 <= ii < post.listeners[li].1.len() implies {
        let ci = clients_find(post.clients, (#[trigger] post.listeners[li].1[ii]).listener_addr);
        ci >= 0 && key_set_find(post.clients[ci].1, post.listeners[li].0) >= 0
    } by {
        assert(post.listeners[li].1[ii].listener_addr == pre.listeners[li].1[ii].listener_addr);
    }
}

/// What adding an entry does to a group's membership: existing addresses
/// keep their places, and the new address is at its old place or at the
/// end.
proof fn lemma_add_spec_addrs(s: Seq<ItemView>, it: ItemView, now: u64)
    ensures
        add_spec(s, it, now).len() == if find_addr(s, it.listener_addr) >= 0 {
            s.len() as int
        } else {
            s.len() + 1int
        },
        forall|x: int|
            0 <= x < s.len() ==> (#[trigger] add_spec(s, it, now)[x]).listener_addr
                == s[x].listener_addr,
        forall|x: int|
            s.len() <= x < add_spec(s, it, now).len() ==> (#[trigger] add_spec(
                s,
                it,
                now,
            )[x]).listener_addr == it.listener_addr,
        find_addr(add_spec(s, it, now), it.listener_addr) >= 0,
{
    let a = it.listener_addr;
    let r = find_addr(s, a);
    lemma_find_first_props(s, addr_pred(a));
    let v = add_spec(s, it, now);
    if r >= 0 {
        assert forall|j: int| 0 <= j < r implies !addr_pred(a)(#[trigger] v[j]) by {
            assert(v[j] == s[j]);
        }
        assert(addr_pred(a)(v[r]));
        lemma_find_first_at(v, addr_pred(a), r);
    } else {
        assert forall|j: int| 0 <= j < s.len() implies !addr_pred(a)(#[trigger] v[j]) by {
            assert(v[j] == s[j]);
        }
        assert(addr_pred(a)(v[s.len() as int]));
        lemma_find_first_at(v, addr_pred(a), s.len() as int);
    }
}

/// What registering a key under an address does to the reverse map:
/// every existing pair keeps its place, at most one entry is appended,
/// and afterwards the address's set holds the key.
proof fn lemma_ucm_members(cs: Seq<(ClientAddr, Seq<Seq<char>>)>, a: ClientAddr, kk: Seq<char>)
    ensures
        ({
            let v = ucm_spec(cs, a, kk);
            &&& cs.len() <= v.len() <= cs.len() + 1
            &&& forall|ci: int| 0 <= ci < cs.len() ==> (#[trigger] v[ci]).0 == cs[ci].0
            &&& forall|ci: int| 0 <= ci < cs.len() ==> cs[ci].1.len() <= (#[trigger] v[ci]).1.len()
            &&& forall|ci: int, ki: int|
                #![trigger v[ci].1[ki]]
                0 <= ci < cs.len() && 0 <= ki < cs[ci].1.len() ==> v[ci].1[ki] == cs[ci].1[ki]
            &&& forall|ci: int| cs.len() <= ci < v.len() ==> (#[trigger] v[ci]).0 == a
            &&& forall|ci: int, ki: int|
                #![trigger v[ci].1[ki]]
                0 <= ci < v.len() && 0 <= ki < v[ci].1.len() && !(ci < cs.len() && ki
                    < cs[ci].1.len()) ==> v[ci].0 == a && v[ci].1[ki] == kk
            &&& ({
                let ci = clients_find(v, a);
                0 <= ci < v.len() && v[ci].0 == a && key_set_find(v[ci].1, kk) >= 0
            })
        }),
{
    let v = ucm_spec(cs, a, kk);
    let ci0 = clients_find(cs, a);
    lemma_find_first_props(cs, caddr_pred(a));
    if ci0 >= 0 {
        let set = cs[ci0].1;
        let k0 = key_set_find(set, kk);
        lemma_find_first_props(set, skey_pred(kk));
        if k0 >= 0 {
        } else {
            // the address keeps its slot; its set grows by the key
            assert forall|j: int| 0 <= j < ci0 implies !caddr_pred(a)(#[trigger] v[j]) by {
                assert(v[j] == cs[j]);
            }
            assert(caddr_pred(a)(v[ci0]));
            lemma_find_first_at(v, caddr_pred(a), ci0);
            assert forall|j: int| 0 <= j < set.len() implies !skey_pred(kk)(
                #[trigger] v[ci0].1[j],
            ) by {
                assert(v[ci0].1[j] == set[j]);
            }
            assert(skey_pred(kk)(v[ci0].1[set.len() as int]));
            lemma_find_first_at(v[ci0].1, skey_pred(kk), set.len() as int);
        }
    } else {
        // a fresh entry is appended for the address
        assert forall|j: int| 0 <= j < cs.len() implies !caddr_pred(a)(#[trigger] v[j]) by {
            assert(v[j] == cs[j]);
        }
        assert(caddr_pred(a)(v[cs.len() as int]));
        lemma_find_first_at(v, caddr_pred(a), cs.len() as int);
        assert(skey_pred(kk)(v[cs.len() as int].1[0]));
        lemma_find_first_at(v[cs.len() as int].1, skey_pred(kk), 0);
    }
}

/// `Subscribe` keeps the bidirectional index consistent: the same step
/// that puts the entry in the key's group records the key under the
/// client's address.
pub proof fn lemma_subscribe_keeps_index(
    pre: RegistryView,
    post: RegistryView,
    k: ServiceKeyView,
    it: ItemView,
    now: u64,
)
    requires
        registry_wf(pre),
        cross_consistent(pre),
        add_post(pre, post, k, it, now),
    ensures
        cross_consistent(post),
{
    let ck = canon_key(k);
    let a = it.listener_addr;
    let li = listeners_find(pre.listeners, ck);
    lemma_find_first_props(pre.listeners, lkey_pred(ck));
    let g = if li >= 0 {
        pre.listeners[li].1
    } else {
        Seq::<ItemView>::empty()
    };
    let g2 = add_spec(g, it, now);
    lemma_add_spec_addrs(g, it, now);
    lemma_ucm_members(pre.clients, a, ck);
    // where the key's group sits after the step
    let li2: int = if li >= 0 {
        li
    } else {
        pre.listeners.len() as int
    };
    assert(post.listeners[li2] == (ck, g2));
    assert(forall|x: int|
        0 <= x < post.listeners.len() && x != li2 ==> #[trigger] post.listeners[x]
            == pre.listeners[x]);
    if li < 0 {
        assert forall|j: int| 0 <= j < pre.listeners.len() implies !lkey_pred(ck)(
            #[trigger] post.listeners[j],
        ) by {
            assert(post.listeners[j] == pre.listeners[j]);
        }
        lemma_find_first_at(post.listeners, lkey_pred(ck), li2);
    } else {
        assert forall|j: int| 0 <= j < li implies !lkey_pred(ck)(#[trigger] post.listeners[j]) by {
            assert(post.listeners[j] == pre.listeners[j]);
        }
        lemma_find_first_at(post.listeners, lkey_pred(ck), li2);
    }
    assert(listeners_find(post.listeners, ck) == li2);
    // every key in the new reverse map names a group holding its client
    assert forall|ci: int, ki: int|
        0 <= ci < post.clients.len() && 0 <= ki < post.clients[ci].1.len() implies {
        let lx = listeners_find(post.listeners, #[trigger] post.clients[ci].1[ki]);
        lx >= 0 && find_addr(post.listeners[lx].1, post.clients[ci].0) >= 0
    } by {
        if ci < pre.clients.len() && ki < pre.clients[ci].1.len() {
            // an old pair: its group is still there, with the client still in it
            let key = pre.clients[ci].1[ki];
            let b = pre.clients[ci].0;
            assert(post.clients[ci].1[ki] == key);
            assert(post.clients[ci].0 == b);
            let l0 = listeners_find(pre.listeners, key);
            lemma_find_first_props(pre.listeners, lkey_pred(key));
            assert(l0 >= 0 && find_addr(pre.listeners[l0].1, b) >= 0);
            // the group keeps its index
            if key == ck {
                assert(l0 == li);
                assert(listeners_find(post.listeners, key) == li2);
                assert(l0 == li2);
            } else {
                assert forall|j: int| 0 <= j < l0 implies !lkey_pred(key)(
                    #[trigger] post.listeners[j],
                ) by {
                    if j == li2 {
                        assert(post.listeners[j].0 == ck);
                    } else {
                        assert(post.listeners[j] == pre.listeners[j]);
                    }
                }
                assert(lkey_pred(key)(post.listeners[l0]));
                lemma_find_first_at(post.listeners, lkey_pred(key), l0);
            }
            // the client keeps its place in the group
            let lx = listeners_find(post.listeners, key);
            let gpre = pre.listeners[l0].1;
            let r = find_addr(gpre, b);
            lemma_find_first_props(gpre, addr_pred(b));
            if lx == li2 {
                assert(pre.listeners[l0].1 == g);
                assert forall|j: int| 0 <= j < r implies !addr_pred(b)(#[trigger] g2[j]) by {
                    assert(g2[j].listener_addr == g[j].listener_addr);
                }
                assert(g2[r].listener_addr == b);
                lemma_find_first_at(g2, addr_pred(b), r);
            } else {
                assert(post.listeners[lx] == pre.listeners[lx]);
                assert(lx == l0);
            }
        } else {
            // the new pair: the key's group now holds the new entry
            let v = ucm_spec(pre.clients, a, ck);
            assert(post.clients == v);
            assert(v[ci].1[ki] == post.clients[ci].1[ki]);
            assert(v[ci].0 == a && v[ci].1[ki] == ck);
            assert(post.clients[ci].0 == a && post.clients[ci].1[ki] == ck);
            assert(listeners_find(post.listeners, ck) == li2);
            assert(find_addr(g2, a) >= 0);
        }
    }
    // every group entry's address is recorded in the new reverse map
    assert forall|lx: int, ii: int|
        0 <= lx < post.listeners.len() && 0 <= ii < post.listeners[lx].1.len() implies {
        let cx = clients_find(post.clients, (#[trigger] post.listeners[lx].1[ii]).listener_addr);
        cx >= 0 && key_set_find(post.clients[cx].1, post.listeners[lx].0) >= 0
    } by {
        let b = post.listeners[lx].1[ii].listener_addr;
        let key = post.listeners[lx].0;
        // which pre pair backs this entry
        let backed: bool = if lx != li2 {
            true
        } else {
            ii < g.len()
        };
        if backed {
            let b0: ClientAddr = if lx != li2 {
                pre.listeners[lx].1[ii].listener_addr
            } else {
                g[ii].listener_addr
            };
            assert(b == b0);
            let key0 = if lx != li2 {
                pre.listeners[lx].0
            } else {
                ck
            };
            assert(key == key0);
            if lx != li2 {
                assert(post.listeners[lx] == pre.listeners[lx]);
                assert(clients_find(pre.clients, b) >= 0 && key_set_find(
                    pre.clients[clients_find(pre.clients, b)].1,
                    key,
                ) >= 0);
            } else {
                assert(li >= 0);
                assert(pre.listeners[li].1[ii].listener_addr == b);
                assert(clients_find(pre.clients, b) >= 0 && key_set_find(
                    pre.clients[clients_find(pre.clients, b)].1,
                    key,
                ) >= 0);
            }
            // the old pair keeps its place in the new reverse map
            let c0 = clients_find(pre.clients, b);
            lemma_find_first_props(pre.clients, caddr_pred(b));
            assert forall|j: int| 0 <= j < c0 implies !caddr_pred(b)(#[trigger] post.clients[j]) by {
                assert(post.clients[j].0 == pre.clients[j].0);
            }
            assert(post.clients[c0].0 == b);
            lemma_find_first_at(post.clients, caddr_pred(b), c0);
            let set0 = pre.clients[c0].1;
            let r0 = key_set_find(set0, key);
            lemma_find_first_props(set0, skey_pred(key));
            assert forall|j: int| 0 <= j < r0 implies !skey_pred(key)(
                #[trigger] post.clients[c0].1[j],
            ) by {
                assert(post.clients[c0].1[j] == set0[j]);
            }
            assert(post.clients[c0].1[r0] == set0[r0]);
            lemma_find_first_at(post.clients[c0].1, skey_pred(key), r0);
        } else {
            // the new entry: `ucm_spec` has recorded (address, key)
            assert(b == a);
            assert(key == ck);
        }
    }
}

/// The reverse map ties address `b` to key `k`.
pub open spec fn has_pair(cs: Seq<(ClientAddr, Seq<Seq<char>>)>, b: ClientAddr, k: Seq<char>) -> bool {
    let i = clients_find(cs, b);
    i >= 0 && key_set_find(cs[i].1, k) >= 0
}

/// Every survivor of a notify cycle is one of the group's entries, live
/// at the cutoff.
proof fn lemma_survivor_from(s: Seq<ItemView>, cutoff: int, w: int)
    requires
        0 <= w < survivors(s, cutoff).len(),
    ensures
        exists|j: int|
            0 <= j < s.len() && #[trigger] s[j] == survivors(s, cutoff)[w] && live(s[j], cutoff),
    decreases s.len(),
{
    let pre = s.drop_last();
    let sv = survivors(s, cutoff);
    let sv_pre = survivors(pre, cutoff);
    if w < sv_pre.len() {
        lemma_survivor_from(pre, cutoff, w);
        let j = choose|j: int|
            0 <= j < pre.len() && #[trigger] pre[j] == sv_pre[w] && live(pre[j], cutoff);
        assert(s[j] == pre[j]);
        assert(sv[w] == sv_pre[w]);
        assert(s[j] == sv[w] && live(s[j], cutoff));
    } else {
        assert(live(s.last(), cutoff));
        assert(sv[w] == s.last());
        assert(s[s.len() - 1] == sv[w] && live(s[s.len() - 1], cutoff));
    }
}

/// A cycle that leaves no survivors had no live entry.
proof fn lemma_no_survivors_all_dead(s: Seq<ItemView>, cutoff: int)
    requires
        items_wf(s),
        survivors(s, cutoff).len() == 0,
    ensures
        forall|i: int| 0 <= i < s.len() ==> !live(#[trigger] s[i], cutoff),
{
    assert forall|i: int| 0 <= i < s.len() implies !live(#[trigger] s[i], cutoff) by {
        lemma_eviction_iff(s, cutoff, i);
        if live(s[i], cutoff) {
            assert(survivors(s, cutoff).contains(s[i]));
        }
    }
}

/// Cleaning one address keeps every other tie, and every tie to another
/// key.
proof fn lemma_clean_one_keeps_pair(
    cs: Seq<(ClientAddr, Seq<Seq<char>>)>,
    a: ClientAddr,
    ck: Seq<char>,
    b: ClientAddr,
    k: Seq<char>,
)
    requires
        has_pair(cs, b, k),
        b != a || k != ck,
        forall|i: int, j: int|
            0 <= i < j < cs.len() ==> (#[trigger] cs[i]).0 != (#[trigger] cs[j]).0,
        forall|i: int, x: int, y: int|
            #![trigger cs[i].1[x], cs[i].1[y]]
            0 <= i < cs.len() && 0 <= x < y < cs[i].1.len() ==> cs[i].1[x] != cs[i].1[y],
    ensures
        has_pair(clean_one(cs, a, ck), b, k),
{
    let v = clean_one(cs, a, ck);
    let ca = clients_find(cs, a);
    let cb = clients_find(cs, b);
    lemma_find_first_props(cs, caddr_pred(a));
    lemma_find_first_props(cs, caddr_pred(b));
    let bset = cs[cb].1;
    let rk = key_set_find(bset, k);
    lemma_find_first_props(bset, skey_pred(k));
    if ca >= 0 {
        let j = key_set_find(cs[ca].1, ck);
        lemma_find_first_props(cs[ca].1, skey_pred(ck));
        if j >= 0 {
            let set2 = cs[ca].1.remove(j);
            cs[ca].1.remove_ensures(j);
            if set2.len() == 0 {
                // a's whole entry is dropped; a != b here, since b's set
                // holds k while a's set held only ck
                assert(b != a || k == ck);
                assert(b != a);
                assert(ca != cb);
                cs.remove_ensures(ca);
                let cb2 = if cb < ca {
                    cb
                } else {
                    cb - 1
                };
                assert forall|x: int| 0 <= x < cb2 implies !caddr_pred(b)(#[trigger] v[x]) by {
                    if x < ca {
                        assert(v[x] == cs[x]);
                    } else {
                        assert(v[x] == cs[x + 1]);
                    }
                }
                assert(v[cb2] == cs[cb]);
                lemma_find_first_at(v, caddr_pred(b), cb2);
                assert(key_set_find(v[cb2].1, k) == rk);
            } else {
                // only a's set shrank
                if b == a {
                    assert(k != ck);
                    assert(cb == ca);
                    assert forall|x: int| 0 <= x < cb implies !caddr_pred(b)(#[trigger] v[x]) by {
                        assert(v[x] == cs[x]);
                    }
                    assert(v[cb].0 == a);
                    lemma_find_first_at(v, caddr_pred(b), cb);
                    // k keeps a place in the shrunk set
                    assert(bset[rk] == k);
                    assert(rk != j);
                    let rk2 = if rk < j {
                        rk
                    } else {
                        rk - 1
                    };
                    assert(set2[rk2] == k);
                    lemma_find_first_props(set2, skey_pred(k));
                    if key_set_find(set2, k) == -1 {
                        assert(!skey_pred(k)(set2[rk2]));
                        assert(false);
                    }
                } else {
                    assert(cb != ca);
                    assert forall|x: int| 0 <= x < cb implies !caddr_pred(b)(#[trigger] v[x]) by {
                        assert(v[x].0 == cs[x].0);
                    }
                    assert(v[cb] == cs[cb]);
                    lemma_find_first_at(v, caddr_pred(b), cb);
                }
            }
        }
    }
}

/// The whole cleanup keeps every tie of an address it does not remove,
/// and every tie to another key.
proof fn lemma_clean_keeps_pair(
    cs: Seq<(ClientAddr, Seq<Seq<char>>)>,
    removes: Seq<ClientAddr>,
    ck: Seq<char>,
    b: ClientAddr,
    k: Seq<char>,
)
    requires
        has_pair(cs, b, k),
        k != ck || (forall|w: int| 0 <= w < removes.len() ==> #[trigger] removes[w] != b),
        forall|i: int, j: int|
            0 <= i < j < cs.len() ==> (#[trigger] cs[i]).0 != (#[trigger] cs[j]).0,
        forall|i: int| 0 <= i < cs.len() ==> (#[trigger] cs[i]).1.len() > 0,
        forall|i: int, x: int, y: int|
            #![trigger cs[i].1[x], cs[i].1[y]]
            0 <= i < cs.len() && 0 <= x < y < cs[i].1.len() ==> cs[i].1[x] != cs[i].1[y],
    ensures
        has_pair(clean_clients(cs, removes, ck), b, k),
    decreases removes.len(),
{
    if removes.len() > 0 {
        lemma_clean_one_keeps_pair(cs, removes[0], ck, b, k);
        lemma_clean_one_wf(cs, removes[0], ck);
        assert(forall|w: int|
            0 <= w < removes.skip(1).len() ==> #[trigger] removes.skip(1)[w] == removes[w + 1]);
        lemma_clean_keeps_pair(clean_one(cs, removes[0], ck), removes.skip(1), ck, b, k);
    }
}

/// Every tie the cleanup leaves was already there.
proof fn lemma_clean_one_pairs_from(
    cs: Seq<(ClientAddr, Seq<Seq<char>>)>,
    a: ClientAddr,
    ck: Seq<char>,
    b: ClientAddr,
    k: Seq<char>,
)
    requires
        has_pair(clean_one(cs, a, ck), b, k),
        forall|i: int, j: int|
            0 <= i < j < cs.len() ==> (#[trigger] cs[i]).0 != (#[trigger] cs[j]).0,
    ensures
        has_pair(cs, b, k),
{
    let v = clean_one(cs, a, ck);
    let ca = clients_find(cs, a);
    lemma_find_first_props(cs, caddr_pred(a));
    if ca >= 0 {
        let j = key_set_find(cs[ca].1, ck);
        lemma_find_first_props(cs[ca].1, skey_pred(ck));
        if j >= 0 {
            let set2 = cs[ca].1.remove(j);
            cs[ca].1.remove_ensures(j);
            let cb2 = clients_find(v, b);
            lemma_find_first_props(v, caddr_pred(b));
            let rk2 = key_set_find(v[cb2].1, k);
            lemma_find_first_props(v[cb2].1, skey_pred(k));
            if set2.len() == 0 {
                cs.remove_ensures(ca);
                let cb = if cb2 < ca {
                    cb2
                } else {
                    cb2 + 1
                };
                assert(v[cb2] == cs[cb]);
                assert(caddr_pred(b)(cs[cb]));
                lemma_find_first_props(cs, caddr_pred(b));
                if clients_find(cs, b) == -1 {
                    assert(false);
                }
                let cb0 = clients_find(cs, b);
                assert(cs[cb0].0 == b && cs[cb].0 == b);
                assert(cb0 == cb);
                assert(skey_pred(k)(cs[cb].1[rk2]));
                lemma_find_first_props(cs[cb].1, skey_pred(k));
                if key_set_find(cs[cb].1, k) == -1 {
                    assert(false);
                }
            } else {
                // entries keep their places; a's set only shrank
                assert(v[cb2].0 == cs[cb2].0);
                assert(caddr_pred(b)(cs[cb2]));
                lemma_find_first_props(cs, caddr_pred(b));
                if clients_find(cs, b) == -1 {
                    assert(false);
                }
                let cb0 = clients_find(cs, b);
                assert(cb0 == cb2);
                if cb2 == ca {
                    // the shrunk set came out of the old one
                    assert(v[cb2].1 == set2);
                    assert(set2[rk2] == if rk2 < j {
                        cs[ca].1[rk2]
                    } else {
                        cs[ca].1[rk2 + 1]
                    });
                    let rk0 = if rk2 < j {
                        rk2
                    } else {
                        rk2 + 1
                    };
                    assert(skey_pred(k)(cs[ca].1[rk0]));
                    lemma_find_first_props(cs[ca].1, skey_pred(k));
                    if key_set_find(cs[ca].1, k) == -1 {
                        assert(false);
                    }
                } else {
                    assert(v[cb2] == cs[cb2]);
                }
            }
        }
    }
}

/// Every tie the whole cleanup leaves was already there.
proof fn lemma_clean_pairs_from(
    cs: Seq<(ClientAddr, Seq<Seq<char>>)>,
    removes: Seq<ClientAddr>,
    ck: Seq<char>,
    b: ClientAddr,
    k: Seq<char>,
)
    requires
        has_pair(clean_clients(cs, removes, ck), b, k),
        forall|i: int, j: int|
            0 <= i < j < cs.len() ==> (#[trigger] cs[i]).0 != (#[trigger] cs[j]).0,
        forall|i: int| 0 <= i < cs.len() ==> (#[trigger] cs[i]).1.len() > 0,
        forall|i: int, x: int, y: int|
            #![trigger cs[i].1[x], cs[i].1[y]]
            0 <= i < cs.len() && 0 <= x < y < cs[i].1.len() ==> cs[i].1[x] != cs[i].1[y],
    ensures
        has_pair(cs, b, k),
    decreases removes.len(),
{
    if removes.len() > 0 {
        lemma_clean_one_wf(cs, removes[0], ck);
        lemma_clean_pairs_from(clean_one(cs, removes[0], ck), removes.skip(1), ck, b, k);
        lemma_clean_one_pairs_from(cs, removes[0], ck, b, k);
    }
}

/// `PushUpdate` keeps the bidirectional index consistent: the same cycle
/// that evicts entries from a group takes the group's key out of those
/// clients' sets, and survivors keep both sides of the tie.
pub proof fn lemma_notify_keeps_index(
    pre: RegistryView,
    post: RegistryView,
    k: ServiceKeyView,
    t: Seq<(Seq<char>, Seq<InstanceView>)>,
    now: u64,
    sends: Seq<DatagramView>,
)
    requires
        registry_wf(pre),
        cross_consistent(pre),
        notify_post(pre, post, k, t, now, sends),
    ensures
        cross_consistent(post),
{
    let ck = canon_key(k);
    let li = listeners_find(pre.listeners, ck);
    if li < 0 {
    } else {
        lemma_find_first_props(pre.listeners, lkey_pred(ck));
        let group = pre.listeners[li].1;
        let cutoff = cutoff_of(now, pre.period);
        let surv = survivors(group, cutoff);
        let evicted = evicted_addrs(group, cutoff);
        assert(items_wf(group));
        let gone = surv.len() == 0;
        // an address evicted from the group is never the address of a
        // survivor
        assert forall|w: int, x: int|
            0 <= w < evicted.len() && 0 <= x < group.len() && live(
                #[trigger] group[x],
                cutoff,
            ) implies #[trigger] evicted[w] != group[x].listener_addr by {
            lemma_evicted_from(group, cutoff, w);
            let j = choose|j: int|
                0 <= j < group.len() && !live(#[trigger] group[j], cutoff)
                    && group[j].listener_addr == evicted[w];
            assert(j != x);
        }
        if !gone {
            // the key's own group keeps its slot
            assert(post.listeners[li] == (ck, mark_sent(surv, now)));
            assert forall|x: int| 0 <= x < li implies !lkey_pred(ck)(
                #[trigger] post.listeners[x],
            ) by {
                assert(post.listeners[x] == pre.listeners[x]);
            }
            lemma_find_first_at(post.listeners, lkey_pred(ck), li);
        } else {
            lemma_empty_group_gone(pre.listeners, li, ck);
        }
        // forward: every surviving tie names a group that still holds its
        // client
        assert forall|ci: int, ki: int|
            0 <= ci < post.clients.len() && 0 <= ki < post.clients[ci].1.len() implies {
            let lx = listeners_find(post.listeners, #[trigger] post.clients[ci].1[ki]);
            lx >= 0 && find_addr(post.listeners[lx].1, post.clients[ci].0) >= 0
        } by {
            let key = post.clients[ci].1[ki];
            let b = post.clients[ci].0;
            // the tie already existed
            lemma_find_first_props(post.clients, caddr_pred(b));
            assert(clients_find(post.clients, b) == ci) by {
                let f = clients_find(post.clients, b);
                lemma_clean_wf(pre.clients, evicted, ck);
                if f != ci {
                    assert(post.clients[f].0 == b);
                    assert(false);
                }
            }
            lemma_find_first_props(post.clients[ci].1, skey_pred(key));
            assert(has_pair(post.clients, b, key)) by {
                let rk = key_set_find(post.clients[ci].1, key);
                if rk == -1 {
                    assert(!skey_pred(key)(post.clients[ci].1[ki]));
                    assert(false);
                }
            }
            lemma_clean_pairs_from(pre.clients, evicted, ck, b, key);
            let c0 = clients_find(pre.clients, b);
            let r0 = key_set_find(pre.clients[c0].1, key);
            lemma_find_first_props(pre.clients, caddr_pred(b));
            lemma_find_first_props(pre.clients[c0].1, skey_pred(key));
            assert(pre.clients[c0].1[r0] == key);
            assert(pre.clients[c0].0 == b);
            let l0 = listeners_find(pre.listeners, key);
            assert(l0 >= 0 && find_addr(pre.listeners[l0].1, b) >= 0);
            lemma_find_first_props(pre.listeners, lkey_pred(key));
            if key == ck {
                assert(l0 == li);
                // this client kept the key, so it was not evicted
                assert forall|w: int| 0 <= w < evicted.len() implies #[trigger] evicted[w]
                    != b by {
                    if evicted[w] == b {
                        lemma_eviction_cleans_reverse_map(pre.clients, evicted, ck, w);
                        assert(!has_pair(post.clients, b, ck));
                        assert(false);
                    }
                }
                // so its entry was live and survives
                let r = find_addr(group, b);
                lemma_find_first_props(group, addr_pred(b));
                assert(group[r].listener_addr == b);
                if !live(group[r], cutoff) {
                    lemma_eviction_iff(group, cutoff, r);
                    assert(evicted.contains(b));
                    let w = choose|w: int| 0 <= w < evicted.len() && evicted[w] == b;
                    assert(false);
                }
                if gone {
                    lemma_no_survivors_all_dead(group, cutoff);
                    assert(false);
                }
                lemma_eviction_iff(group, cutoff, r);
                assert(surv.contains(group[r]));
                let w = choose|w: int| 0 <= w < surv.len() && surv[w] == group[r];
                assert(mark_sent(surv, now)[w].listener_addr == b);
                lemma_find_first_props(mark_sent(surv, now), addr_pred(b));
                if find_addr(mark_sent(surv, now), b) == -1 {
                    assert(!addr_pred(b)(mark_sent(surv, now)[w]));
                    assert(false);
                }
            } else {
                assert(l0 != li);
                lemma_listener_slot_kept(pre.listeners, post.listeners, li, gone, ck, l0);
            }
        }
        // backward: every entry of every remaining group keeps its tie
        assert forall|lx: int, ii: int|
            0 <= lx < post.listeners.len() && 0 <= ii < post.listeners[lx].1.len() implies {
            let cx = clients_find(
                post.clients,
                (#[trigger] post.listeners[lx].1[ii]).listener_addr,
            );
            cx >= 0 && key_set_find(post.clients[cx].1, post.listeners[lx].0) >= 0
        } by {
            let key = post.listeners[lx].0;
            let b = post.listeners[lx].1[ii].listener_addr;
            if !gone && lx == li {
                // a survivor of the key's own group
                lemma_survivor_from(group, cutoff, ii);
                let j = choose|j: int|
                    0 <= j < group.len() && #[trigger] group[j] == surv[ii] && live(
                        group[j],
                        cutoff,
                    );
                assert(post.listeners[lx].1[ii] == with_modified(surv[ii], now));
                assert(b == group[j].listener_addr);
                assert(clients_find(pre.clients, b) >= 0 && key_set_find(
                    pre.clients[clients_find(pre.clients, b)].1,
                    ck,
                ) >= 0);
                assert(has_pair(pre.clients, b, ck));
                assert(forall|w: int| 0 <= w < evicted.len() ==> #[trigger] evicted[w] != b);
                lemma_clean_keeps_pair(pre.clients, evicted, ck, b, ck);
            } else {
                // an entry of an untouched group
                let l0 = if gone && lx >= li {
                    lx + 1
                } else {
                    lx
                };
                if gone {
                    pre.listeners.remove_ensures(li);
                }
                assert(post.listeners[lx] == pre.listeners[l0]);
                assert(l0 != li);
                assert(key == pre.listeners[l0].0);
                assert(key != ck);
                assert(pre.listeners[l0].1[ii].listener_addr == b);
                assert(clients_find(pre.clients, b) >= 0 && key_set_find(
                    pre.clients[clients_find(pre.clients, b)].1,
                    key,
                ) >= 0);
                assert(has_pair(pre.clients, b, key));
                lemma_clean_keeps_pair(pre.clients, evicted, ck, b, key);
            }
        }
    }
}

/// An untouched group keeps its place (shifted past a removed slot) and
/// is still the one its key finds.
proof fn lemma_listener_slot_kept(
    pre_ls: Seq<(Seq<char>, Seq<ItemView>)>,
    post_ls: Seq<(Seq<char>, Seq<ItemView>)>,
    li: int,
    gone: bool,
    ck: Seq<char>,
    l0: int,
)
    requires
        0 <= li < pre_ls.len(),
        pre_ls[li].0 == ck,
        forall|i: int, j: int|
            0 <= i < j < pre_ls.len() ==> (#[trigger] pre_ls[i]).0 != (#[trigger] pre_ls[j]).0,
        gone ==> post_ls == pre_ls.remove(li),
        !gone ==> post_ls.len() == pre_ls.len() && post_ls[li].0 == ck && (forall|x: int|
            0 <= x < pre_ls.len() && x != li ==> #[trigger] post_ls[x] == pre_ls[x]),
        0 <= l0 < pre_ls.len(),
        l0 != li,
    ensures
        ({
            let l2 = if gone && l0 > li {
                l0 - 1
            } else {
                l0
            };
            post_ls[l2] == pre_ls[l0] && listeners_find(post_ls, pre_ls[l0].0) == l2
        }),
{
    let key = pre_ls[l0].0;
    let l2 = if gone && l0 > li {
        l0 - 1
    } else {
        l0
    };
    if gone {
        pre_ls.remove_ensures(li);
    }
    assert(post_ls[l2] == pre_ls[l0]);
    assert forall|x: int| 0 <= x < l2 implies !lkey_pred(key)(#[trigger] post_ls[x]) by {
        if gone {
            if x < li {
                assert(post_ls[x] == pre_ls[x]);
            } else {
                assert(post_ls[x] == pre_ls[x + 1]);
            }
        } else {
            if x == li {
                assert(post_ls[x].0 == ck);
                assert(key != ck);
            } else {
                assert(post_ls[x] == pre_ls[x]);
            }
        }
    }
    lemma_find_first_at(post_ls, lkey_pred(key), l2);
}

/// The whole cleanup preserves the reverse map's well-formedness.
proof fn lemma_clean_wf(
    cs: Seq<(ClientAddr, Seq<Seq<char>>)>,
    removes: Seq<ClientAddr>,
    ck: Seq<char>,
)
    requires
        forall|i: int, j: int|
            0 <= i < j < cs.len() ==> (#[trigger] cs[i]).0 != (#[trigger] cs[j]).0,
        forall|i: int| 0 <= i < cs.len() ==> (#[trigger] cs[i]).1.len() > 0,
        forall|i: int, x: int, y: int|
            #![trigger cs[i].1[x], cs[i].1[y]]
            0 <= i < cs.len() && 0 <= x < y < cs[i].1.len() ==> cs[i].1[x] != cs[i].1[y],
    ensures
        ({
            let v = clean_clients(cs, removes, ck);
            &&& forall|i: int, j: int|
                0 <= i < j < v.len() ==> (#[trigger] v[i]).0 != (#[trigger] v[j]).0
            &&& forall|i: int| 0 <= i < v.len() ==> (#[trigger] v[i]).1.len() > 0
            &&& forall|i: int, x: int, y: int|
                #![trigger v[i].1[x], v[i].1[y]]
                0 <= i < v.len() && 0 <= x < y < v[i].1.len() ==> v[i].1[x] != v[i].1[y]
        }),
    decreases removes.len(),
{
    if removes.len() == 0 {
        assert(clean_clients(cs, removes, ck) == cs);
    } else {
        lemma_clean_one_wf(cs, removes[0], ck);
        lemma_clean_wf(clean_one(cs, removes[0], ck), removes.skip(1), ck);
        assert(clean_clients(cs, removes, ck) == clean_clients(
            clean_one(cs, removes[0], ck),
            removes.skip(1),
            ck,
        ));
    }
}

/// The reverse map stays well formed under `ucm_spec`.
proof fn lemma_ucm_wf(cs: Seq<(ClientAddr, Seq<Seq<char>>)>, a: ClientAddr, kk: Seq<char>)
    requires
        forall|i: int, j: int|
            0 <= i < j < cs.len() ==> (#[trigger] cs[i]).0 != (#[trigger] cs[j]).0,
        forall|i: int| 0 <= i < cs.len() ==> (#[trigger] cs[i]).1.len() > 0,
        forall|i: int, x: int, y: int|
            #![trigger cs[i].1[x], cs[i].1[y]]
            0 <= i < cs.len() && 0 <= x < y < cs[i].1.len() ==> cs[i].1[x] != cs[i].1[y],
    ensures
        ({
            let v = ucm_spec(cs, a, kk);
            &&& forall|i: int, j: int|
                0 <= i < j < v.len() ==> (#[trigger] v[i]).0 != (#[trigger] v[j]).0
            &&& forall|i: int| 0 <= i < v.len() ==> (#[trigger] v[i]).1.len() > 0
            &&& forall|i: int, x: int, y: int|
                #![trigger v[i].1[x], v[i].1[y]]
                0 <= i < v.len() && 0 <= x < y < v[i].1.len() ==> v[i].1[x] != v[i].1[y]
        }),
{
    let v = ucm_spec(cs, a, kk);
    let ci = clients_find(cs, a);
    lemma_find_first_props(cs, caddr_pred(a));
    if ci >= 0 {
        let jj = key_set_find(cs[ci].1, kk);
        lemma_find_first_props(cs[ci].1, skey_pred(kk));
        if jj >= 0 {
        } else {
            assert forall|i: int, x: int, y: int|
                0 <= i < v.len() && 0 <= x < y < v[i].1.len() implies #[trigger] v[i].1[x] != (
            #[trigger] v[i].1[y]) by {
                if i == ci {
                    assert(v[i].1 == cs[ci].1.push(kk));
                    if y < cs[ci].1.len() {
                        assert(v[i].1[x] == cs[ci].1[x]);
                        assert(v[i].1[y] == cs[ci].1[y]);
                    } else {
                        assert(v[i].1[y] == kk);
                        assert(v[i].1[x] == cs[ci].1[x]);
                        assert(!skey_pred(kk)(cs[ci].1[x]));
                    }
                } else {
                    assert(v[i] == cs[i]);
                }
            }
        }
    } else {
        assert forall|i: int, x: int, y: int|
            0 <= i < v.len() && 0 <= x < y < v[i].1.len() implies #[trigger] v[i].1[x] != (
        #[trigger] v[i].1[y]) by {
            if i < cs.len() {
                assert(v[i] == cs[i]);
            } else {
                assert(v[i].1 =~= seq![kk]);
            }
        }
        assert forall|i: int, j: int|
            0 <= i < j < v.len() implies (#[trigger] v[i]).0 != (#[trigger] v[j]).0 by {
            if j < cs.len() {
            } else {
                assert(v[j].0 == a);
                assert(v[i] == cs[i]);
                assert(!caddr_pred(a)(cs[i]));
            }
        }
    }
}

/// The group list stays well formed under `Subscribe`.
proof fn lemma_add_groups_wf(
    pre: RegistryView,
    post: RegistryView,
    ck: Seq<char>,
    it: ItemView,
    now: u64,
)
    requires
        registry_wf(pre),
        item_wf(it),
        post.listeners == (if listeners_find(pre.listeners, ck) >= 0 {
            pre.listeners.update(
                listeners_find(pre.listeners, ck),
                (ck, add_spec(pre.listeners[listeners_find(pre.listeners, ck)].1, it, now)),
            )
        } else {
            pre.listeners.push((ck, add_spec(Seq::<ItemView>::empty(), it, now)))
        }),
    ensures
        forall|i: int|
            0 <= i < post.listeners.len() ==> items_wf((#[trigger] post.listeners[i]).1),
        forall|i: int| 0 <= i < post.listeners.len() ==> (#[trigger] post.listeners[i]).1.len() > 0,
        forall|i: int, j: int|
            0 <= i < j < post.listeners.len() ==> (#[trigger] post.listeners[i]).0 != (
            #[trigger] post.listeners[j]).0,
{
    let li = listeners_find(pre.listeners, ck);
    lemma_find_first_props(pre.listeners, lkey_pred(ck));
    if li >= 0 {
        let g = pre.listeners[li].1;
        lemma_add_spec_wf(g, it, now);
        assert forall|i: int|
            0 <= i < post.listeners.len() implies items_wf((#[trigger] post.listeners[i]).1) by {
            if i != li {
                assert(post.listeners[i] == pre.listeners[i]);
            }
        }
        assert forall|i: int|
            0 <= i < post.listeners.len() implies (#[trigger] post.listeners[i]).1.len() > 0 by {
            if i != li {
                assert(post.listeners[i] == pre.listeners[i]);
            } else {
                lemma_find_first_props(g, addr_pred(it.listener_addr));
            }
        }
        assert forall|i: int, j: int|
            0 <= i < j < post.listeners.len() implies (#[trigger] post.listeners[i]).0 != (
        #[trigger] post.listeners[j]).0 by {
            assert(post.listeners[i].0 == pre.listeners[i].0);
            assert(post.listeners[j].0 == pre.listeners[j].0);
        }
    } else {
        lemma_add_spec_wf(Seq::<ItemView>::empty(), it, now);
        assert forall|i: int|
            0 <= i < post.listeners.len() implies items_wf((#[trigger] post.listeners[i]).1) by {
            if i < pre.listeners.len() {
                assert(post.listeners[i] == pre.listeners[i]);
            }
        }
        assert forall|i: int|
            0 <= i < post.listeners.len() implies (#[trigger] post.listeners[i]).1.len() > 0 by {
            if i < pre.listeners.len() {
                assert(post.listeners[i] == pre.listeners[i]);
            } else {
                lemma_find_first_props(
                    Seq::<ItemView>::empty(),
                    addr_pred(it.listener_addr),
                );
            }
        }
        assert forall|i: int, j: int|
            0 <= i < j < post.listeners.len() implies (#[trigger] post.listeners[i]).0 != (
        #[trigger] post.listeners[j]).0 by {
            if j < pre.listeners.len() {
                assert(post.listeners[i] == pre.listeners[i]);
                assert(post.listeners[j] == pre.listeners[j]);
            } else {
                assert(post.listeners[j].0 == ck);
                assert(post.listeners[i] == pre.listeners[i]);
                assert(!lkey_pred(ck)(pre.listeners[i]));
            }
        }
    }
}

/// `add_spec` keeps a group well formed.
proof fn lemma_add_spec_wf(s: Seq<ItemView>, it: ItemView, now: u64)
    requires
        items_wf(s),
        item_wf(it),
    ensures
        items_wf(add_spec(s, it, now)),
        add_spec(s, it, now).len() > 0,
{
    let a = it.listener_addr;
    let i = find_addr(s, a);
    let v = add_spec(s, it, now);
    lemma_find_first_props(s, addr_pred(a));
    if i >= 0 {
        assert forall|x: int| 0 <= x < v.len() implies item_wf(#[trigger] v[x]) by {
            if x != i {
                assert(v[x] == s[x]);
            }
        }
        assert forall|x: int, y: int|
            0 <= x < y < v.len() implies (#[trigger] v[x]).listener_addr != (
        #[trigger] v[y]).listener_addr by {
            if x != i && y != i {
                assert(v[x] == s[x]);
                assert(v[y] == s[y]);
            } else if x == i {
                assert(v[y] == s[y]);
                assert(v[x].listener_addr == s[i].listener_addr);
            } else {
                assert(v[x] == s[x]);
                assert(v[y].listener_addr == s[i].listener_addr);
            }
        }
    } else {
        assert forall|x: int| 0 <= x < v.len() implies item_wf(#[trigger] v[x]) by {
            if x < s.len() {
                assert(v[x] == s[x]);
            }
        }
        assert forall|x: int, y: int|
            0 <= x < y < v.len() implies (#[trigger] v[x]).listener_addr != (
        #[trigger] v[y]).listener_addr by {
            if y < s.len() {
                assert(v[x] == s[x]);
                assert(v[y] == s[y]);
            } else {
                assert(v[x] == s[x]);
                assert(v[y].listener_addr == a);
                assert(!addr_pred(a)(s[x]));
            }
        }
    }
}

/// One step of the acknowledge loop matches the pointwise description.
proof fn lemma_ack_step(
    prev: RegistryView,
    base: Seq<(Seq<char>, Seq<ItemView>)>,
    cur: Seq<(Seq<char>, Seq<ItemView>)>,
    civ: int,
    j: int,
    a: ClientAddr,
    now: u64,
)
    requires
        registry_wf(prev),
        0 <= civ < prev.clients.len(),
        0 <= j < prev.clients[civ].1.len(),
        base.len() == prev.listeners.len(),
        forall|li: int|
            0 <= li < base.len() ==> #[trigger] base[li] == ack_entry(prev, a, now, j, civ, li),
        ({
            let k = prev.clients[civ].1[j];
            let li0 = listeners_find(base, k);
            cur == (if li0 >= 0 {
                base.update(li0, (k, response_spec(base[li0].1, a, now)))
            } else {
                base
            })
        }),
    ensures
        forall|li: int|
            0 <= li < prev.listeners.len() ==> #[trigger] cur[li] == ack_entry(
                prev,
                a,
                now,
                j + 1,
                civ,
                li,
            ),
{
    let set = prev.clients[civ].1;
    let pa = set.subrange(0, j);
    let pb = set.subrange(0, j + 1);
    let k = set[j];
    let li0 = listeners_find(base, k);
    lemma_find_first_props(base, lkey_pred(k));
    assert(pb.drop_last() =~= pa);
    assert(pb.last() == k);
    assert forall|li: int|
        0 <= li < prev.listeners.len() implies #[trigger] cur[li] == ack_entry(
            prev,
            a,
            now,
            j + 1,
            civ,
            li,
        ) by {
        let key_li = prev.listeners[li].0;
        lemma_find_first_props(pa, skey_pred(key_li));
        lemma_find_first_props(pb, skey_pred(key_li));
        assert(base[li] == ack_entry(prev, a, now, j, civ, li));
        assert(base[li].0 == key_li);
        // membership in the longer prefix
        if key_set_find(pa, key_li) >= 0 {
            let w = key_set_find(pa, key_li);
            assert(pb[w] == pa[w]);
            assert(skey_pred(key_li)(pb[w]));
            assert(key_set_find(pb, key_li) >= 0);
            // this group was already refreshed; refreshing twice is the same
            assert(base[li] == (key_li, response_spec(prev.listeners[li].1, a, now)));
            if li0 >= 0 && li == li0 {
                assert(base[li0].0 == k);
                lemma_response_idem(prev.listeners[li].1, a, now);
                assert(cur[li] == (key_li, response_spec(prev.listeners[li].1, a, now)));
            } else {
                assert(cur[li] == base[li]);
            }
        } else if key_li == k {
            assert(skey_pred(key_li)(pb[j]));
            assert(key_set_find(pb, key_li) >= 0);
            assert(base[li] == prev.listeners[li]);
            // the group of this key, when present, is refreshed this step
            if li0 >= 0 {
                if li == li0 {
                    assert(cur[li] == (k, response_spec(base[li0].1, a, now)));
                    assert(base[li0].1 == prev.listeners[li].1);
                } else {
                    assert(base[li0].0 == k);
                    assert(base[li0].0 == prev.listeners[li0].0);
                    assert(prev.listeners[li].0 == prev.listeners[li0].0);
                    assert(false);
                }
            } else {
                assert(!lkey_pred(k)(base[li]));
                assert(false);
            }
        } else {
            assert forall|w: int| 0 <= w < pb.len() implies !skey_pred(key_li)(#[trigger] pb[w]) by {
                if w < j {
                    assert(pb[w] == pa[w]);
                } else {
                    assert(pb[w] == k);
                }
            }
            lemma_find_first_at(pb, skey_pred(key_li), pb.len() as int);
            assert(base[li] == prev.listeners[li]);
            if li0 >= 0 && li == li0 {
                assert(base[li0].0 == k);
                assert(false);
            } else {
                assert(cur[li] == base[li]);
            }
        }
    }
}

/// Refreshing the same address twice at the same time changes nothing more.
proof fn lemma_response_idem(s: Seq<ItemView>, a: ClientAddr, now: u64)
    ensures
        response_spec(response_spec(s, a, now), a, now) == response_spec(s, a, now),
{
    let p = addr_pred(a);
    lemma_find_first_props(s, p);
    let i = find_addr(s, a);
    if i >= 0 {
        let s1 = s.update(i, with_response_time(s[i], now));
        assert forall|j: int| 0 <= j < i implies !p(#[trigger] s1[j]) by {
            assert(s1[j] == s[j]);
        }
        assert(p(s1[i]));
        lemma_find_first_at(s1, p, i);
        assert(s1.update(i, with_response_time(s1[i], now)) =~= s1);
    }
}

/// The group list stays well formed under an acknowledge.
proof fn lemma_ack_wf(pre: RegistryView, post: RegistryView, a: ClientAddr, now: u64)
    requires
        registry_wf(pre),
        post.listeners == ack_listeners_spec(pre, a, now),
        post.clients == pre.clients,
        post.timers == pre.timers,
        post.period == pre.period,
    ensures
        registry_wf(post),
{
    assert forall|i: int|
        0 <= i < post.listeners.len() implies items_wf((#[trigger] post.listeners[i]).1)
        && post.listeners[i].1.len() > 0 by {
        let e = pre.listeners[i];
        let ci = clients_find(pre.clients, a);
        if ci >= 0 && key_set_find(pre.clients[ci].1, e.0) >= 0 {
            assert(post.listeners[i] == (e.0, response_spec(e.1, a, now)));
            lemma_response_wf(e.1, a, now);
        } else {
            assert(post.listeners[i] == e);
        }
    }
    assert forall|i: int, j: int|
        0 <= i < j < post.listeners.len() implies (#[trigger] post.listeners[i]).0 != (
    #[trigger] post.listeners[j]).0 by {
        assert(post.listeners[i].0 == pre.listeners[i].0);
        assert(post.listeners[j].0 == pre.listeners[j].0);
    }
}

/// `response_spec` keeps a group well formed and its size.
proof fn lemma_response_wf(s: Seq<ItemView>, a: ClientAddr, now: u64)
    requires
        items_wf(s),
    ensures
        items_wf(response_spec(s, a, now)),
        response_spec(s, a, now).len() == s.len(),
{
    let i = find_addr(s, a);
    lemma_find_first_props(s, addr_pred(a));
    let v = response_spec(s, a, now);
    if i >= 0 {
        assert forall|x: int| 0 <= x < v.len() implies item_wf(#[trigger] v[x]) by {
            if x != i {
                assert(v[x] == s[x]);
            }
        }
        assert forall|x: int, y: int|
            0 <= x < y < v.len() implies (#[trigger] v[x]).listener_addr != (
        #[trigger] v[y]).listener_addr by {
            assert(v[x].listener_addr == s[x].listener_addr);
            assert(v[y].listener_addr == s[y].listener_addr);
        }
    }
}

} // verus!
