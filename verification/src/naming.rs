use vstd::prelude::*;

use crate::search::{find_first, lemma_find_first_at, lemma_find_first_props};

verus! {

// ---------------------------------------------------------------------------
// Service keys.
// ---------------------------------------------------------------------------

/// The `(namespace, group, service)` triple that identifies one subscribable
/// service.
pub struct ServiceKey {
    pub namespace_id: String,
    pub group_name: String,
    pub service_name: String,
}

/// The view of a `ServiceKey`: its three fields as character sequences.
pub struct ServiceKeyView {
    pub namespace_id: Seq<char>,
    pub group_name: Seq<char>,
    pub service_name: Seq<char>,
}

impl View for ServiceKey {
    type V = ServiceKeyView;

    open spec fn view(&self) -> ServiceKeyView {
        ServiceKeyView {
            namespace_id: self.namespace_id@,
            group_name: self.group_name@,
            service_name: self.service_name@,
        }
    }
}

impl Clone for ServiceKey {
    fn clone(&self) -> (r: Self)
        ensures
            r@ == self@,
    {
        ServiceKey {
            namespace_id: self.namespace_id.clone(),
            group_name: self.group_name.clone(),
            service_name: self.service_name.clone(),
        }
    }
}

impl ServiceKey {
    pub fn new(namespace_id: String, group_name: String, service_name: String) -> (r: Self)
        ensures
            r@.namespace_id == namespace_id@,
            r@.group_name == group_name@,
            r@.service_name == service_name@,
    {
        ServiceKey { namespace_id, group_name, service_name }
    }
}

// ---------------------------------------------------------------------------
// Instances.
// ---------------------------------------------------------------------------

/// One registered instance of a service, reduced to what notification
/// needs: identity, endpoint and health.
pub struct Instance {
    pub instance_id: String,
    pub ip: String,
    pub port: u16,
    pub healthy: bool,
}

/// The view of an `Instance`.
pub struct InstanceView {
    pub instance_id: Seq<char>,
    pub ip: Seq<char>,
    pub port: u16,
    pub healthy: bool,
}

impl View for Instance {
    type V = InstanceView;

    open spec fn view(&self) -> InstanceView {
        InstanceView {
            instance_id: self.instance_id@,
            ip: self.ip@,
            port: self.port,
            healthy: self.healthy,
        }
    }
}

impl Clone for Instance {
    fn clone(&self) -> (r: Self)
        ensures
            r@ == self@,
    {
        Instance {
            instance_id: self.instance_id.clone(),
            ip: self.ip.clone(),
            port: self.port,
            healthy: self.healthy,
        }
    }
}

impl Instance {
    pub fn new(instance_id: String, ip: String, port: u16, healthy: bool) -> (r: Self)
        ensures
            r@.instance_id == instance_id@,
            r@.ip == ip@,
            r@.port == port,
            r@.healthy == healthy,
    {
        Instance { instance_id, ip, port, healthy }
    }
}

/// The views of a sequence of instances.
pub open spec fn inst_views(v: Seq<Instance>) -> Seq<InstanceView> {
    Seq::new(v.len(), |i: int| v[i]@)
}

// ---------------------------------------------------------------------------
// The per-cluster instance table of one service.
// ---------------------------------------------------------------------------

/// The instance lists of one service, grouped by cluster name.  Cluster
/// names are unique; the order is the order in which clusters were added.
pub struct InstanceTable {
    clusters: Vec<(String, Vec<Instance>)>,
}

impl View for InstanceTable {
    type V = Seq<(Seq<char>, Seq<InstanceView>)>;

    closed spec fn view(&self) -> Seq<(Seq<char>, Seq<InstanceView>)> {
        Seq::new(self.clusters@.len(), |i: int| (self.clusters@[i].0@, inst_views(self.clusters@[i].1@)))
    }
}

/// Holds of a table entry whose cluster name is `name`.
pub open spec fn cluster_name_pred(name: Seq<char>) -> spec_fn((Seq<char>, Seq<InstanceView>)) -> bool {
    |e: (Seq<char>, Seq<InstanceView>)| e.0 == name
}

/// Index of cluster `name` in a table view, or -1.
pub open spec fn table_find(t: Seq<(Seq<char>, Seq<InstanceView>)>, name: Seq<char>) -> int {
    find_first(t, cluster_name_pred(name))
}

/// The instance list of cluster `name`, or `None` when the table has no such
/// cluster.
pub open spec fn table_lookup(t: Seq<(Seq<char>, Seq<InstanceView>)>, name: Seq<char>) -> Option<
    Seq<InstanceView>,
> {
    let i = table_find(t, name);
    if i == -1 {
        None
    } else {
        Some(t[i].1)
    }
}

impl InstanceTable {
    /// Cluster names are unique.
    pub open spec fn wf(&self) -> bool {
        forall|i: int, j: int|
            0 <= i < j < self@.len() ==> (#[trigger] self@[i]).0 != (#[trigger] self@[j]).0
    }

    pub fn new() -> (r: Self)
        ensures
            r.wf(),
            r@ == Seq::<(Seq<char>, Seq<InstanceView>)>::empty(),
    {
        let r = InstanceTable { clusters: Vec::new() };
        proof {
            assert(r@ =~= Seq::<(Seq<char>, Seq<InstanceView>)>::empty());
        }
        r
    }

    /// Adds the instance list of one cluster; the cluster must be new.
    pub fn add_cluster(&mut self, name: String, list: Vec<Instance>)
        requires
            old(self).wf(),
            table_find(old(self)@, name@) == -1,
        ensures
            final(self).wf(),
            final(self)@ == old(self)@.push((name@, inst_views(list@))),
    {
        proof {
            lemma_find_first_props(self@, cluster_name_pred(name@));
        }
        self.clusters.push((name, list));
        proof {
            assert(self@ =~= old(self)@.push((self.clusters@.last().0@, inst_views(
                self.clusters@.last().1@,
            ))));
        }
    }

    /// The instance list of cluster `name`, when the table has it.
    pub fn get_cluster(&self, name: &String) -> (r: Option<&Vec<Instance>>)
        ensures
            match r {
                Some(l) => table_lookup(self@, name@) == Some(inst_views(l@)),
                None => table_lookup(self@, name@) is None,
            },
    {
        let ghost p = cluster_name_pred(name@);
        let n = self.clusters.len();
        proof {
            assert(p == cluster_name_pred(name@));
        }
        let mut i: usize = 0;
        loop
            invariant
                p == cluster_name_pred(name@),
                i <= n,
                n == self@.len(),
                forall|j: int| 0 <= j < i ==> !p(#[trigger] self@[j]),
            ensures
                i <= n,
                forall|j: int| 0 <= j < i ==> !p(#[trigger] self@[j]),
                i < n ==> p(self@[i as int]),
            decreases n - i,
        {
            if i == n {
                break;
            }
            if self.clusters[i].0.eq(name) {
                assert(p(self@[i as int]));
                break;
            }
            assert(!p(self@[i as int]));
            i = i + 1;
        }
        proof {
            lemma_find_first_at(self@, p, i as int);
        }
        if i == n {
            None
        } else {
            Some(&self.clusters[i].1)
        }
    }

    /// All cluster names, in table order.
    pub fn cluster_names(&self) -> (r: Vec<String>)
        ensures
            crate::strutil::str_views(r@) == Seq::new(self@.len(), |i: int| self@[i].0),
    {
        let mut r: Vec<String> = Vec::new();
        let n = self.clusters.len();
        let mut i: usize = 0;
        while i < n
            invariant
                i <= n,
                n == self@.len(),
                r@.len() == i,
                forall|j: int| 0 <= j < i ==> (#[trigger] r@[j])@ == self@[j].0,
            decreases n - i,
        {
            r.push(self.clusters[i].0.clone());
            i = i + 1;
        }
        proof {
            assert(crate::strutil::str_views(r@) =~= Seq::new(self@.len(), |j: int| self@[j].0));
        }
        r
    }

    /// How many clusters the table has.
    pub fn len(&self) -> (r: usize)
        ensures
            r == self@.len(),
    {
        self.clusters.len()
    }
}

} // verus!
