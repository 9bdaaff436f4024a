//! The objects that a cluster resource asks for: a config map, a headless service and a
//! stateful set.

use crate::operator::crd::{ClusterPhase, InfraLensClusterSpec, InfraLensClusterStatus};
use crate::text::{decimal, decimal_text, views};
use vstd::prelude::*;

verus! {

/// Seconds until a cluster is looked at again.
pub const REQUEUE_SECS: u64 = 30;

/// Seconds until a cluster is looked at again after an error.
pub const RETRY_SECS: u64 = 10;

/// Under which name the operator owns fields.
pub fn field_manager() -> (out: &'static str)
    ensures
        out@ == "infralens-operator"@,
{
    "infralens-operator"
}

/// The pairs of a list, as texts.
pub open spec fn pairs(v: Seq<(String, String)>) -> Seq<(Seq<char>, Seq<char>)> {
    v.map_values(|p: (String, String)| (p.0@, p.1@))
}

/// A port under its name.
#[derive(Debug)]
pub struct NamedPort {
    pub name: String,
    pub port: i32,
}

/// The ports of a list, as names and numbers.
pub open spec fn ports(v: Seq<NamedPort>) -> Seq<(Seq<char>, i32)> {
    v.map_values(|p: NamedPort| (p.name@, p.port))
}

/// The name, the namespace and the labels of an object.
#[derive(Debug)]
pub struct ObjectMeta {
    pub name: String,
    pub namespace: String,
    pub labels: Vec<(String, String)>,
}

/// A config map.
#[derive(Debug)]
pub struct ConfigMapPlan {
    pub meta: ObjectMeta,
    pub data: Vec<(String, String)>,
}

/// A service.
#[derive(Debug)]
pub struct ServicePlan {
    pub meta: ObjectMeta,
    pub cluster_ip: String,
    pub selector: Vec<(String, String)>,
    pub ports: Vec<NamedPort>,
}

/// The container of each pod.
#[derive(Debug)]
pub struct ContainerPlan {
    pub name: String,
    pub image: String,
    /// The config map that holds the environment.
    pub config_map: String,
    /// Variables that hold a field of the pod: names and field paths.
    pub field_env: Vec<(String, String)>,
    pub ports: Vec<NamedPort>,
    /// Volumes and where they are mounted.
    pub mounts: Vec<(String, String)>,
}

/// The volume that each pod claims.
#[derive(Debug)]
pub struct ClaimPlan {
    pub name: String,
    pub access_mode: String,
    pub storage_class: String,
    pub size: String,
}

/// A stateful set.
#[derive(Debug)]
pub struct StatefulSetPlan {
    pub meta: ObjectMeta,
    pub replicas: i32,
    pub selector: Vec<(String, String)>,
    pub service_name: String,
    pub pod_labels: Vec<(String, String)>,
    pub container: ContainerPlan,
    pub claim: ClaimPlan,
}

/// The labels of everything that belongs to a cluster, by key.
pub open spec fn labels_of(name: Seq<char>) -> Seq<(Seq<char>, Seq<char>)> {
    seq![
        ("app.kubernetes.io/component"@, "server"@),
        ("app.kubernetes.io/instance"@, name),
        ("app.kubernetes.io/name"@, "infralens"@),
    ]
}

/// Whether an object has a name, a namespace and the labels of a cluster.
pub open spec fn is_meta(m: ObjectMeta, name: Seq<char>, ns: Seq<char>, cluster: Seq<char>) -> bool {
    &&& m.name@ == name
    &&& m.namespace@ == ns
    &&& pairs(m.labels@) == labels_of(cluster)
}

/// Texts with a comma between each two.
pub open spec fn comma_separated(v: Seq<Seq<char>>) -> Seq<char>
    decreases v.len(),
{
    if v.len() == 0 {
        Seq::empty()
    } else if v.len() == 1 {
        v[0]
    } else {
        comma_separated(v.drop_last()) + ","@ + v.last()
    }
}

fn pair(key: &str, value: &str) -> (out: (String, String))
    ensures
        out.0@ == key@,
        out.1@ == value@,
{
    (key.to_string(), value.to_string())
}

fn named_port(name: &str, port: i32) -> (out: NamedPort)
    ensures
        out.name@ == name@,
        out.port == port,
{
    NamedPort { name: name.to_string(), port }
}

/// The labels of everything that belongs to a cluster.
pub fn labels(name: &str) -> (out: Vec<(String, String)>)
    ensures
        pairs(out@) == labels_of(name@),
{
    let mut out: Vec<(String, String)> = Vec::new();
    out.push(pair("app.kubernetes.io/component", "server"));
    out.push(pair("app.kubernetes.io/instance", name));
    out.push(pair("app.kubernetes.io/name", "infralens"));
    assert(pairs(out@) =~= labels_of(name@));
    out
}

/// Texts with a comma between each two.
pub fn join_commas(v: &Vec<String>) -> (out: String)
    ensures
        out@ == comma_separated(views(v@)),
{
    let ghost all = views(v@);
    let mut out = String::new();
    assert(out@ =~= comma_separated(all.take(0)));
    for i in 0..v.len()
        invariant
            all == views(v@),
            out@ == comma_separated(all.take(i as int)),
    {
        assert(all.take(i + 1).drop_last() =~= all.take(i as int));
        assert(all.take(i + 1).last() == v@[i as int]@);
        if i > 0 {
            out.append(",");
        }
        let ghost before = out@;
        out.append(v[i].as_str());
        assert(out@ =~= before + v@[i as int]@);
        if i == 0 {
            assert(out@ =~= all.take(1)[0]);
        }
    }
    assert(all.take(all.len() as int) =~= all);
    out
}

/// The name of the config map of a cluster.
pub fn config_map_name(name: &str) -> (out: String)
    ensures
        out@ == name@ + "-config"@,
{
    let mut out = name.to_string();
    out.append("-config");
    out
}

fn object_meta(name: String, ns: &str, cluster: &str) -> (out: ObjectMeta)
    ensures
        is_meta(out, name@, ns@, cluster@),
{
    ObjectMeta { name, namespace: ns.to_string(), labels: labels(cluster) }
}

/// The settings of a cluster, and its etcd endpoints, as environment variables.
pub open spec fn settings(spec: InfraLensClusterSpec) -> Seq<(Seq<char>, Seq<char>)> {
    seq![
        ("INFRALENS__CLUSTER__ETCD_ENDPOINTS"@, comma_separated(views(spec.etcd_endpoints@))),
        (
            "INFRALENS__STORAGE__MEMTABLE_SIZE_BYTES"@,
            decimal(spec.config.memtable_size_bytes as nat),
        ),
        ("INFRALENS__STORAGE__PARTITION_HOURS"@, decimal(spec.config.partition_hours as nat)),
    ]
}

/// Whether a config map is that of a cluster.
pub open spec fn is_config_map(
    p: ConfigMapPlan,
    name: Seq<char>,
    spec: InfraLensClusterSpec,
    ns: Seq<char>,
) -> bool {
    is_meta(p.meta, name + "-config"@, ns, name) && pairs(p.data@) == settings(spec)
}

/// The config map of a cluster: what the servers find in their environment.
pub fn reconcile_configmap(name: &str, spec: &InfraLensClusterSpec, ns: &str) -> (out: ConfigMapPlan)
    ensures
        is_config_map(out, name@, *spec, ns@),
{
    let etcd_csv = join_commas(&spec.etcd_endpoints);
    let size = decimal_text(spec.config.memtable_size_bytes);
    let hours = decimal_text(spec.config.partition_hours);
    let mut data: Vec<(String, String)> = Vec::new();
    data.push(pair("INFRALENS__CLUSTER__ETCD_ENDPOINTS", etcd_csv.as_str()));
    data.push(pair("INFRALENS__STORAGE__MEMTABLE_SIZE_BYTES", size.as_str()));
    data.push(pair("INFRALENS__STORAGE__PARTITION_HOURS", hours.as_str()));
    assert(pairs(data@) =~= settings(*spec));
    ConfigMapPlan { meta: object_meta(config_map_name(name), ns, name), data }
}

/// Whether a service is that of a cluster.
pub open spec fn is_service(p: ServicePlan, name: Seq<char>, ns: Seq<char>) -> bool {
    &&& is_meta(p.meta, name, ns, name)
    &&& p.cluster_ip@ == "None"@
    &&& pairs(p.selector@) == labels_of(name)
    &&& ports(p.ports@) == seq![
        ("otlp-grpc"@, 4317i32),
        ("otlp-http"@, 4318i32),
        ("metrics"@, 9090i32),
        ("internal"@, 5317i32),
    ]
}

/// The service of a cluster. It is headless: it gives each pod a name of its own.
pub fn reconcile_service(name: &str, ns: &str) -> (out: ServicePlan)
    ensures
        is_service(out, name@, ns@),
{
    let mut list: Vec<NamedPort> = Vec::new();
    list.push(named_port("otlp-grpc", 4317));
    list.push(named_port("otlp-http", 4318));
    list.push(named_port("metrics", 9090));
    list.push(named_port("internal", 5317));
    assert(ports(list@) =~= seq![
        ("otlp-grpc"@, 4317i32),
        ("otlp-http"@, 4318i32),
        ("metrics"@, 9090i32),
        ("internal"@, 5317i32),
    ]);
    ServicePlan {
        meta: object_meta(name.to_string(), ns, name),
        cluster_ip: "None".to_string(),
        selector: labels(name),
        ports: list,
    }
}

/// Whether a container is that of a cluster.
pub open spec fn is_container(c: ContainerPlan, name: Seq<char>, image: Seq<char>) -> bool {
    &&& c.name@ == "infralens"@
    &&& c.image@ == image
    &&& c.config_map@ == name + "-config"@
    &&& pairs(c.field_env@) == seq![("POD_NAME"@, "metadata.name"@)]
    &&& ports(c.ports@) == seq![
        ("otlp-grpc"@, 4317i32),
        ("otlp-http"@, 4318i32),
        ("metrics"@, 9090i32),
    ]
    &&& pairs(c.mounts@) == seq![("data"@, "/data"@)]
}

fn container(name: &str, spec: &InfraLensClusterSpec) -> (out: ContainerPlan)
    ensures
        is_container(out, name@, spec.image@),
{
    let mut env: Vec<(String, String)> = Vec::new();
    env.push(pair("POD_NAME", "metadata.name"));
    assert(pairs(env@) =~= seq![("POD_NAME"@, "metadata.name"@)]);
    let mut list: Vec<NamedPort> = Vec::new();
    list.push(named_port("otlp-grpc", 4317));
    list.push(named_port("otlp-http", 4318));
    list.push(named_port("metrics", 9090));
    assert(ports(list@) =~= seq![
        ("otlp-grpc"@, 4317i32),
        ("otlp-http"@, 4318i32),
        ("metrics"@, 9090i32),
    ]);
    let mut mounts: Vec<(String, String)> = Vec::new();
    mounts.push(pair("data", "/data"));
    assert(pairs(mounts@) =~= seq![("data"@, "/data"@)]);
    ContainerPlan {
        name: "infralens".to_string(),
        image: spec.image.clone(),
        config_map: config_map_name(name),
        field_env: env,
        ports: list,
        mounts,
    }
}

/// A count as a signed number of the same bits.
pub open spec fn as_signed(n: u32) -> int {
    if n <= i32::MAX {
        n as int
    } else {
        n - 0x1_0000_0000
    }
}

/// A count as a signed number of the same bits.
fn to_signed(n: u32) -> (out: i32)
    ensures
        out == as_signed(n),
{
    if n <= 0x7FFF_FFFF {
        n as i32
    } else {
        (n as i64 - 0x1_0000_0000) as i32
    }
}

/// Whether a stateful set is that of a cluster.
pub open spec fn is_stateful_set(
    p: StatefulSetPlan,
    name: Seq<char>,
    spec: InfraLensClusterSpec,
    ns: Seq<char>,
) -> bool {
    &&& is_meta(p.meta, name, ns, name)
    &&& p.replicas == as_signed(spec.replicas)
    &&& pairs(p.selector@) == labels_of(name)
    &&& p.service_name@ == name
    &&& pairs(p.pod_labels@) == labels_of(name)
    &&& is_container(p.container, name, spec.image@)
    &&& p.claim.name@ == "data"@
    &&& p.claim.access_mode@ == "ReadWriteOnce"@
    &&& p.claim.storage_class@ == spec.storage_class@
    &&& p.claim.size@ == spec.storage_size@
}

/// The stateful set of a cluster.
pub fn reconcile_statefulset(name: &str, spec: &InfraLensClusterSpec, ns: &str) -> (out:
    StatefulSetPlan)
    ensures
        is_stateful_set(out, name@, *spec, ns@),
{
    StatefulSetPlan {
        meta: object_meta(name.to_string(), ns, name),
        replicas: to_signed(spec.replicas),
        selector: labels(name),
        service_name: name.to_string(),
        pod_labels: labels(name),
        container: container(name, spec),
        claim: ClaimPlan {
            name: "data".to_string(),
            access_mode: "ReadWriteOnce".to_string(),
            storage_class: spec.storage_class.clone(),
            size: spec.storage_size.clone(),
        },
    }
}

/// Whether a status is that of a cluster whose objects have been applied.
pub open spec fn is_status(
    s: InfraLensClusterStatus,
    spec: InfraLensClusterSpec,
    generation: Option<i64>,
) -> bool {
    &&& s.phase == ClusterPhase::Running
    &&& s.ready_replicas == spec.replicas
    &&& s.observed_generation == match generation {
        Some(g) => g,
        None => 0,
    }
    &&& s.message is None
}

/// The status of a cluster whose objects have been applied.
pub fn update_status(spec: &InfraLensClusterSpec, generation: Option<i64>) -> (out:
    InfraLensClusterStatus)
    ensures
        is_status(out, *spec, generation),
{
    InfraLensClusterStatus {
        phase: ClusterPhase::Running,
        ready_replicas: spec.replicas,
        observed_generation: match generation {
            Some(g) => g,
            None => 0,
        },
        message: None,
    }
}

/// A step of bringing a cluster to what its resource asks for.
pub enum Step {
    ConfigMap(ConfigMapPlan),
    Service(ServicePlan),
    StatefulSet(StatefulSetPlan),
    Status(InfraLensClusterStatus),
}

/// The steps for a cluster, in order. A resource without a namespace is in the one with the
/// empty name.
pub fn reconcile(
    name: &str,
    namespace: Option<String>,
    spec: &InfraLensClusterSpec,
    generation: Option<i64>,
) -> (out: Vec<Step>)
    ensures
        out@.len() == 4,
        ({
            let ns = match namespace {
                Some(n) => n@,
                None => Seq::<char>::empty(),
            };
            &&& out@[0] matches Step::ConfigMap(p) && is_config_map(p, name@, *spec, ns)
            &&& out@[1] matches Step::Service(p) && is_service(p, name@, ns)
            &&& out@[2] matches Step::StatefulSet(p) && is_stateful_set(p, name@, *spec, ns)
            &&& out@[3] matches Step::Status(s) && is_status(s, *spec, generation)
        }),
{
    let ns: String = match namespace {
        Some(n) => n,
        None => String::new(),
    };
    assert(namespace is None ==> ns@ =~= Seq::<char>::empty());
    let mut steps: Vec<Step> = Vec::new();
    steps.push(Step::ConfigMap(reconcile_configmap(name, spec, ns.as_str())));
    steps.push(Step::Service(reconcile_service(name, ns.as_str())));
    steps.push(Step::StatefulSet(reconcile_statefulset(name, spec, ns.as_str())));
    steps.push(Step::Status(update_status(spec, generation)));
    steps
}

/// Seconds until a cluster is looked at again after an error.
pub fn error_policy() -> (secs: u64)
    ensures
        secs == RETRY_SECS,
{
    RETRY_SECS
}

// ── Laws ────────────────────────────────────────────────────────────────────

/// The pods of a cluster are those that its service and its stateful set select, and they
/// read the config map that is kept for the cluster.
pub proof fn objects_of_a_cluster_fit_together(
    map: ConfigMapPlan,
    service: ServicePlan,
    set: StatefulSetPlan,
    name: Seq<char>,
    spec: InfraLensClusterSpec,
    ns: Seq<char>,
)
    requires
        is_config_map(map, name, spec, ns),
        is_service(service, name, ns),
        is_stateful_set(set, name, spec, ns),
    ensures
        pairs(service.selector@) == pairs(set.pod_labels@),
        pairs(set.selector@) == pairs(set.pod_labels@),
        set.service_name@ == service.meta.name@,
        set.container.config_map@ == map.meta.name@,
        set.container.mounts@.len() == 1 && set.container.mounts@[0].0@ == set.claim.name@,
{
    let m = pairs(set.container.mounts@);
    assert(m.len() == 1);
    assert(m[0] == ("data"@, "/data"@));
    assert(set.container.mounts@[0].0@ == m[0].0);
}

/// What a resource asks for is what its objects have: the number of replicas, the image, the
/// volume, and the settings under their names.
pub proof fn objects_have_what_is_asked_for(
    map: ConfigMapPlan,
    set: StatefulSetPlan,
    status: InfraLensClusterStatus,
    name: Seq<char>,
    spec: InfraLensClusterSpec,
    ns: Seq<char>,
    generation: i64,
)
    requires
        is_config_map(map, name, spec, ns),
        is_stateful_set(set, name, spec, ns),
        is_status(status, spec, Some(generation)),
    ensures
        spec.replicas <= i32::MAX ==> set.replicas == spec.replicas,
        set.container.image@ == spec.image@,
        set.claim.storage_class@ == spec.storage_class@,
        set.claim.size@ == spec.storage_size@,
        set.meta.namespace@ == ns && map.meta.namespace@ == ns,
        set.meta.name@ == name,
        pairs(map.data@).contains(
            (
                "INFRALENS__STORAGE__MEMTABLE_SIZE_BYTES"@,
                decimal(spec.config.memtable_size_bytes as nat),
            ),
        ),
        pairs(map.data@).contains(
            ("INFRALENS__STORAGE__PARTITION_HOURS"@, decimal(spec.config.partition_hours as nat)),
        ),
        pairs(map.data@).contains(
            (
                "INFRALENS__CLUSTER__ETCD_ENDPOINTS"@,
                comma_separated(views(spec.etcd_endpoints@)),
            ),
        ),
        status.ready_replicas == spec.replicas,
        status.observed_generation == generation,
{
    let d = pairs(map.data@);
    assert(d[0].0 == "INFRALENS__CLUSTER__ETCD_ENDPOINTS"@);
    assert(d[1].0 == "INFRALENS__STORAGE__MEMTABLE_SIZE_BYTES"@);
    assert(d[2].0 == "INFRALENS__STORAGE__PARTITION_HOURS"@);
    assert(d.contains(d[0]) && d.contains(d[1]) && d.contains(d[2]));
}

/// Every port of the servers is one of the service, under the same name.
pub proof fn ports_of_the_servers_are_served(
    service: ServicePlan,
    set: StatefulSetPlan,
    name: Seq<char>,
    spec: InfraLensClusterSpec,
    ns: Seq<char>,
    i: int,
)
    requires
        is_service(service, name, ns),
        is_stateful_set(set, name, spec, ns),
        0 <= i < set.container.ports@.len(),
    ensures
        ports(service.ports@).contains(
            (set.container.ports@[i].name@, set.container.ports@[i].port),
        ),
        service.ports@.len() == set.container.ports@.len() + 1,
{
    let s = ports(service.ports@);
    let c = ports(set.container.ports@);
    assert(c.len() == 3 && s.len() == 4);
    assert(c[i] == (set.container.ports@[i].name@, set.container.ports@[i].port));
    assert(s[0] == c[0] && s[1] == c[1] && s[2] == c[2]);
    assert(s.contains(s[i]));
}

/// Texts with commas between them hold each text whole: one more text comes behind a comma.
pub proof fn commas_stand_between(v: Seq<Seq<char>>, x: Seq<char>)
    ensures
        comma_separated(Seq::empty()) == Seq::<char>::empty(),
        comma_separated(seq![x]) == x,
        v.len() > 0 ==> comma_separated(v.push(x)) == comma_separated(v) + seq![','] + x,
{
    reveal_strlit(",");
    assert(","@ =~= seq![',']);
    assert(v.push(x).drop_last() =~= v);
}

} // verus!
