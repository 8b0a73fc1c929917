use vstd::prelude::*;

verus! {

use std::collections::HashMap;
use crate::proxy::config::{wf_apps, AppView, Config};
use crate::proxy::load_balancer::{round_robin, wrap_inc};
use vstd::string::StringExecFns;

broadcast use vstd::std_specs::hash::group_hash_axioms;

/// One planned listener: the owning application's name, the port to bind,
/// and an immutable clone of the target pool traffic on that port is
/// balanced over. The bound socket itself lives outside the library.
#[derive(Clone, Debug)]
pub struct Proxy {
    pub app_name: String,
    pub port: u16,
    pub targets: Vec<String>,
}

/// Mathematical model of a [`Proxy`].
pub ghost struct ProxyView {
    pub app_name: Seq<char>,
    pub port: u16,
    pub targets: Seq<Seq<char>>,
}

impl View for Proxy {
    type V = ProxyView;

    open spec fn view(&self) -> ProxyView {
        ProxyView {
            app_name: self.app_name@,
            port: self.port,
            targets: self.targets.deep_view(),
        }
    }
}

impl DeepView for Proxy {
    type V = ProxyView;

    open spec fn deep_view(&self) -> ProxyView {
        self@
    }
}

/// `m` with every port of one application bound to that application's
/// targets, in port order; a later binding overwrites an earlier one.
pub open spec fn insert_app_ports(
    m: Map<u16, Seq<Seq<char>>>,
    ports: Seq<u16>,
    targets: Seq<Seq<char>>,
) -> Map<u16, Seq<Seq<char>>>
    decreases ports.len(),
{
    if ports.len() == 0 {
        m
    } else {
        insert_app_ports(m, ports.drop_last(), targets).insert(ports.last(), targets)
    }
}

/// The port-to-targets map of a configuration: applications are bound in
/// order, so when two applications claim one port the later one wins.
pub open spec fn port_map_of(apps: Seq<AppView>) -> Map<u16, Seq<Seq<char>>>
    decreases apps.len(),
{
    if apps.len() == 0 {
        Map::empty()
    } else {
        insert_app_ports(port_map_of(apps.drop_last()), apps.last().ports, apps.last().targets)
    }
}

/// Builds the map that associates each configured port with the target pool
/// traffic on that port is balanced over (the last application claiming a
/// port wins, by map-overwrite semantics).
pub fn proxy_map(app_config: &Config) -> (m: HashMap<u16, Vec<String>>)
    ensures
        forall|p: u16| m@.contains_key(p) <==> port_map_of(app_config@).contains_key(p),
        forall|p: u16| m@.contains_key(p) ==> (#[trigger] m@[p]).deep_view() == port_map_of(
            app_config@,
        )[p],
{
    let ghost apps = app_config@;
    let mut port_to_targets: HashMap<u16, Vec<String>> = HashMap::new();
    let mut i: usize = 0;
    while i < app_config.apps.len()
        invariant
            apps == app_config@,
            i <= app_config.apps.len(),
            apps.len() == app_config.apps.len(),
            forall|p: u16|
                port_to_targets@.contains_key(p) <==> port_map_of(
                    apps.take(i as int),
                ).contains_key(p),
            forall|p: u16|
                port_to_targets@.contains_key(p) ==> (#[trigger] port_to_targets@[p]).deep_view()
                    == port_map_of(apps.take(i as int))[p],
        decreases app_config.apps.len() - i,
    {
        let app = &app_config.apps[i];
        let ghost av = apps[i as int];
        proof {
            assert(av == app_config.apps@[i as int].deep_view());
            assert(apps.take(i + 1).drop_last() =~= apps.take(i as int));
            assert(apps.take(i + 1).last() == av);
        }
        let ghost pm_i = port_map_of(apps.take(i as int));
        let mut j: usize = 0;
        while j < app.ports.len()
            invariant
                j <= app.ports.len(),
                av == app@,
                pm_i == port_map_of(apps.take(i as int)),
                forall|p: u16|
                    port_to_targets@.contains_key(p) <==> insert_app_ports(
                        pm_i,
                        av.ports.take(j as int),
                        av.targets,
                    ).contains_key(p),
                forall|p: u16|
                    port_to_targets@.contains_key(p) ==> (
                    #[trigger] port_to_targets@[p]).deep_view() == insert_app_ports(
                        pm_i,
                        av.ports.take(j as int),
                        av.targets,
                    )[p],
            decreases app.ports.len() - j,
        {
            let port = app.ports[j];
            proof {
                assert(av.ports.take(j + 1).drop_last() =~= av.ports.take(j as int));
                assert(av.ports.take(j + 1).last() == port);
            }
            let cloned = app.targets.clone();
            proof {
                assert(cloned.deep_view() =~= av.targets);
            }
            port_to_targets.insert(port, cloned);
            j = j + 1;
        }
        proof {
            assert(av.ports.take(app.ports@.len() as int) =~= av.ports);
        }
        i = i + 1;
    }
    proof {
        assert(apps.take(apps.len() as int) =~= apps);
    }
    port_to_targets
}

/// The (application name, port) pairs of one application, in port order.
pub open spec fn pairs_of_app(app: AppView) -> Seq<(Seq<char>, u16)> {
    Seq::new(app.ports.len(), |j: int| (app.name, app.ports[j]))
}

/// All (application name, port) pairs of a configuration, in the order the
/// applications and their ports are listed.
pub open spec fn app_port_pairs(apps: Seq<AppView>) -> Seq<(Seq<char>, u16)>
    decreases apps.len(),
{
    if apps.len() == 0 {
        Seq::empty()
    } else {
        app_port_pairs(apps.drop_last()) + pairs_of_app(apps.last())
    }
}

/// Whether some planned listener already occupies port `p`.
pub open spec fn has_port(plan: Seq<ProxyView>, p: u16) -> bool {
    exists|k: int| 0 <= k < plan.len() && plan[k].port == p
}

/// The listener plan drawn from `pairs`: one listener per distinct port, in
/// first-claim order, each carrying the port's pool from the port map `pm`
/// (so for a twice-claimed port the first claimant listens, with the pool
/// of the last claimant, which won the map).
pub open spec fn plan_of(
    pairs: Seq<(Seq<char>, u16)>,
    pm: Map<u16, Seq<Seq<char>>>,
) -> Seq<ProxyView>
    decreases pairs.len(),
{
    if pairs.len() == 0 {
        Seq::empty()
    } else {
        let prev = plan_of(pairs.drop_last(), pm);
        let pair = pairs.last();
        if has_port(prev, pair.1) {
            prev
        } else {
            prev.push(ProxyView { app_name: pair.0, port: pair.1, targets: pm[pair.1] })
        }
    }
}

/// The listener plan of a whole configuration.
pub open spec fn listener_plan(apps: Seq<AppView>) -> Seq<ProxyView> {
    plan_of(app_port_pairs(apps), port_map_of(apps))
}

/// A port stands in `insert_app_ports(m, ports, targets)` exactly when it
/// stands in `m` or in `ports`; `ports` members are bound to `targets`,
/// the others keep their binding from `m`.
proof fn lemma_insert_app_ports_at(
    m: Map<u16, Seq<Seq<char>>>,
    ports: Seq<u16>,
    targets: Seq<Seq<char>>,
    p: u16,
)
    ensures
        insert_app_ports(m, ports, targets).contains_key(p) <==> (m.contains_key(p)
            || ports.contains(p)),
        ports.contains(p) ==> insert_app_ports(m, ports, targets)[p] == targets,
        !ports.contains(p) && m.contains_key(p) ==> insert_app_ports(m, ports, targets)[p] == m[p],
    decreases ports.len(),
{
    if ports.len() > 0 {
        lemma_insert_app_ports_at(m, ports.drop_last(), targets, p);
        if ports.contains(p) && ports.last() != p {
            let w = choose|w: int| 0 <= w < ports.len() && ports[w] == p;
            assert(ports.drop_last()[w] == p);
            assert(ports.drop_last().contains(p));
        }
        if ports.drop_last().contains(p) {
            assert(ports.contains(p));
        }
        if ports.last() == p {
            assert(ports.contains(p));
        }
    }
}

/// A port stands in the port map exactly when some application claims it.
proof fn lemma_port_map_contains(apps: Seq<AppView>, p: u16)
    ensures
        port_map_of(apps).contains_key(p) <==> (exists|i: int|
            0 <= i < apps.len() && (#[trigger] apps[i]).ports.contains(p)),
    decreases apps.len(),
{
    if apps.len() > 0 {
        let dl = apps.drop_last();
        lemma_port_map_contains(dl, p);
        lemma_insert_app_ports_at(port_map_of(dl), apps.last().ports, apps.last().targets, p);
        if exists|i: int| 0 <= i < dl.len() && (#[trigger] dl[i]).ports.contains(p) {
            let i = choose|i: int| 0 <= i < dl.len() && (#[trigger] dl[i]).ports.contains(p);
            assert(apps[i].ports.contains(p));
        }
        if apps.last().ports.contains(p) {
            assert(apps[apps.len() - 1].ports.contains(p));
        }
        if port_map_of(apps).contains_key(p) {
        } else {
            if exists|i: int| 0 <= i < apps.len() && (#[trigger] apps[i]).ports.contains(p) {
                let i = choose|i: int| 0 <= i < apps.len() && (#[trigger] apps[i]).ports.contains(
                    p,
                );
                if i < apps.len() - 1 {
                    assert(dl[i].ports.contains(p));
                } else {
                    assert(apps.last().ports.contains(p));
                }
                assert(false);
            }
        }
    }
}

/// Builds the listener plan of a configuration: one planned listener per
/// distinct configured port, in first-claim order, each carrying the
/// owning application's name and the port's target pool. A port claimed
/// twice yields a single planned listener, so a second bind attempt on it
/// never happens.
pub fn generate_proxies(app_config: &Config) -> (proxies: Vec<Proxy>)
    ensures
        proxies.deep_view() == listener_plan(app_config@),
{
    let ghost apps = app_config@;
    let ghost pm = port_map_of(apps);
    let mut proxies: Vec<Proxy> = Vec::new();
    let mut port_to_targets = proxy_map(app_config);
    let mut i: usize = 0;
    while i < app_config.apps.len()
        invariant
            apps == app_config@,
            pm == port_map_of(apps),
            i <= app_config.apps.len(),
            apps.len() == app_config.apps.len(),
            proxies.deep_view() == plan_of(app_port_pairs(apps.take(i as int)), pm),
            forall|p: u16|
                port_to_targets@.contains_key(p) <==> (pm.contains_key(p) && !has_port(
                    proxies.deep_view(),
                    p,
                )),
            forall|p: u16|
                port_to_targets@.contains_key(p) ==> (#[trigger] port_to_targets@[p]).deep_view()
                    == pm[p],
        decreases app_config.apps.len() - i,
    {
        let app = &app_config.apps[i];
        let ghost av = apps[i as int];
        let ghost pairs_done = app_port_pairs(apps.take(i as int));
        proof {
            assert(av == app_config.apps@[i as int].deep_view());
        }
        let mut j: usize = 0;
        while j < app.ports.len()
            invariant
                apps == app_config@,
                pm == port_map_of(apps),
                0 <= i < apps.len(),
                j <= app.ports.len(),
                av == app@,
                av == apps[i as int],
                pairs_done == app_port_pairs(apps.take(i as int)),
                proxies.deep_view() == plan_of(pairs_done + pairs_of_app(av).take(j as int), pm),
                forall|p: u16|
                    port_to_targets@.contains_key(p) <==> (pm.contains_key(p) && !has_port(
                        proxies.deep_view(),
                        p,
                    )),
                forall|p: u16|
                    port_to_targets@.contains_key(p) ==> (
                    #[trigger] port_to_targets@[p]).deep_view() == pm[p],
            decreases app.ports.len() - j,
        {
            let port = app.ports[j];
            let ghost prev_pairs = pairs_done + pairs_of_app(av).take(j as int);
            let ghost next_pairs = pairs_done + pairs_of_app(av).take(j + 1);
            let ghost prev_plan = proxies.deep_view();
            proof {
                assert(next_pairs =~= prev_pairs.push((av.name, port)));
                assert(next_pairs.drop_last() =~= prev_pairs);
                assert(next_pairs.last() == (av.name, port));
            }
            match port_to_targets.remove(&port) {
                Some(proxy_targets) => {
                    let proxy = Proxy {
                        app_name: app.name.clone(),
                        port,
                        targets: proxy_targets,
                    };
                    proof {
                        assert(!has_port(prev_plan, port));
                        assert(proxy@ == ProxyView { app_name: av.name, port, targets: pm[port] });
                    }
                    proxies.push(proxy);
                    proof {
                        assert(proxies.deep_view() =~= prev_plan.push(
                            ProxyView { app_name: av.name, port, targets: pm[port] },
                        ));
                        assert forall|p: u16|
                            has_port(proxies.deep_view(), p) <==> (has_port(prev_plan, p) || p
                                == port) by {
                            let np = proxies.deep_view();
                            if has_port(np, p) {
                                let k = choose|k: int| 0 <= k < np.len() && np[k].port == p;
                                if k < prev_plan.len() {
                                    assert(prev_plan[k].port == p);
                                }
                            }
                            if has_port(prev_plan, p) {
                                let k = choose|k: int|
                                    0 <= k < prev_plan.len() && prev_plan[k].port == p;
                                assert(np[k].port == p);
                            }
                            if p == port {
                                assert(np[np.len() - 1].port == p);
                            }
                        }
                    }
                }
                None => {
                    proof {
                        lemma_port_map_contains(apps, port);
                        assert(av.ports[j as int] == port);
                        assert(apps[i as int].ports.contains(port));
                        assert(pm.contains_key(port));
                        assert(has_port(prev_plan, port));
                        assert(plan_of(next_pairs, pm) == prev_plan);
                    }
                }
            }
            j = j + 1;
        }
        proof {
            assert(pairs_of_app(av).take(av.ports.len() as int) =~= pairs_of_app(av));
            assert(apps.take(i + 1).drop_last() =~= apps.take(i as int));
            assert(apps.take(i + 1).last() == av);
            assert(app_port_pairs(apps.take(i + 1)) == pairs_done + pairs_of_app(av));
        }
        i = i + 1;
    }
    proof {
        assert(apps.take(apps.len() as int) =~= apps);
    }
    proxies
}

/// Whether some pair in `pairs` claims port `p`.
pub open spec fn claims_port(pairs: Seq<(Seq<char>, u16)>, p: u16) -> bool {
    exists|q: int| 0 <= q < pairs.len() && pairs[q].1 == p
}

/// No two applications share a port.
pub open spec fn disjoint_ports(apps: Seq<AppView>) -> bool {
    forall|a: int, b: int, p: u16|
        0 <= a < apps.len() && 0 <= b < apps.len() && a != b && #[trigger] apps[a].ports.contains(
            p,
        ) ==> !(#[trigger] apps[b].ports.contains(p))
}

/// The plan lists a port exactly when some pair claims it, and lists no
/// port twice.
proof fn lemma_plan_of_at(pairs: Seq<(Seq<char>, u16)>, pm: Map<u16, Seq<Seq<char>>>, p: u16)
    ensures
        has_port(plan_of(pairs, pm), p) <==> claims_port(pairs, p),
        forall|k1: int, k2: int|
            0 <= k1 < plan_of(pairs, pm).len() && 0 <= k2 < plan_of(pairs, pm).len() && k1 != k2
                ==> plan_of(pairs, pm)[k1].port != plan_of(pairs, pm)[k2].port,
    decreases pairs.len(),
{
    if pairs.len() > 0 {
        let dl = pairs.drop_last();
        let pair = pairs.last();
        let prev = plan_of(dl, pm);
        let plan = plan_of(pairs, pm);
        lemma_plan_of_at(dl, pm, p);
        lemma_plan_of_at(dl, pm, pair.1);
        if claims_port(dl, p) {
            let q = choose|q: int| 0 <= q < dl.len() && dl[q].1 == p;
            assert(pairs[q].1 == p);
        }
        if claims_port(pairs, p) && pair.1 != p {
            let q = choose|q: int| 0 <= q < pairs.len() && pairs[q].1 == p;
            assert(dl[q].1 == p);
        }
        if pair.1 == p {
            assert(pairs[pairs.len() - 1].1 == p);
            assert(claims_port(pairs, p));
        }
        if has_port(prev, pair.1) {
            assert(plan == prev);
        } else {
            assert(plan == prev.push(
                ProxyView { app_name: pair.0, port: pair.1, targets: pm[pair.1] },
            ));
            if has_port(prev, p) {
                let k = choose|k: int| 0 <= k < prev.len() && prev[k].port == p;
                assert(plan[k].port == p);
            }
            if p == pair.1 {
                assert(plan[plan.len() - 1].port == p);
            }
            if has_port(plan, p) && p != pair.1 {
                let k = choose|k: int| 0 <= k < plan.len() && plan[k].port == p;
                assert(k < prev.len());
                assert(prev[k].port == p);
            }
            assert forall|k1: int, k2: int|
                0 <= k1 < plan.len() && 0 <= k2 < plan.len() && k1 != k2 implies plan[k1].port
                != plan[k2].port by {
                if k1 < prev.len() && k2 < prev.len() {
                } else {
                    let ko = if k1 < prev.len() {
                        k1
                    } else {
                        k2
                    };
                    if ko < prev.len() && prev[ko].port == pair.1 {
                        assert(has_port(prev, pair.1));
                    }
                }
            }
        }
    }
}

/// Every plan entry comes from a pair: the entry carries that pair's
/// application name and port, and the port map's pool for the port.
proof fn lemma_plan_entry_source(pairs: Seq<(Seq<char>, u16)>, pm: Map<u16, Seq<Seq<char>>>, k: int)
    requires
        0 <= k < plan_of(pairs, pm).len(),
    ensures
        plan_of(pairs, pm)[k].targets == pm[plan_of(pairs, pm)[k].port],
        exists|q: int|
            0 <= q < pairs.len() && (#[trigger] pairs[q]).0 == plan_of(pairs, pm)[k].app_name
                && pairs[q].1 == plan_of(pairs, pm)[k].port,
    decreases pairs.len(),
{
    let dl = pairs.drop_last();
    let pair = pairs.last();
    let prev = plan_of(dl, pm);
    let plan = plan_of(pairs, pm);
    if k < prev.len() {
        lemma_plan_entry_source(dl, pm, k);
        let q = choose|q: int|
            0 <= q < dl.len() && (#[trigger] dl[q]).0 == prev[k].app_name && dl[q].1
                == prev[k].port;
        assert(pairs[q] == dl[q]);
    } else {
        assert(plan[k] == ProxyView { app_name: pair.0, port: pair.1, targets: pm[pair.1] });
        assert(pairs[pairs.len() - 1] == pair);
    }
}

/// Every pair names an application of the configuration that claims the
/// pair's port.
proof fn lemma_pairs_source(apps: Seq<AppView>, q: int)
    requires
        0 <= q < app_port_pairs(apps).len(),
    ensures
        exists|i: int|
            0 <= i < apps.len() && (#[trigger] apps[i]).name == app_port_pairs(apps)[q].0
                && apps[i].ports.contains(app_port_pairs(apps)[q].1),
    decreases apps.len(),
{
    let dl = apps.drop_last();
    let dlp = app_port_pairs(dl);
    if q < dlp.len() {
        lemma_pairs_source(dl, q);
        let i = choose|i: int|
            0 <= i < dl.len() && (#[trigger] dl[i]).name == dlp[q].0 && dl[i].ports.contains(
                dlp[q].1,
            );
        assert(apps[i] == dl[i]);
        assert(app_port_pairs(apps)[q] == dlp[q]);
    } else {
        let j = q - dlp.len();
        let last = apps.last();
        assert(app_port_pairs(apps)[q] == pairs_of_app(last)[j]);
        assert(pairs_of_app(last)[j] == (last.name, last.ports[j]));
        assert(last.ports.contains(last.ports[j]));
        assert(apps[apps.len() - 1] == last);
    }
}

/// An application that claims a port puts a pair for it into the pair list.
proof fn lemma_claimed_port_in_pairs(apps: Seq<AppView>, i: int, p: u16)
    requires
        0 <= i < apps.len(),
        apps[i].ports.contains(p),
    ensures
        claims_port(app_port_pairs(apps), p),
    decreases apps.len(),
{
    let dl = apps.drop_last();
    let dlp = app_port_pairs(dl);
    if i < apps.len() - 1 {
        assert(dl[i] == apps[i]);
        lemma_claimed_port_in_pairs(dl, i, p);
        let q = choose|q: int| 0 <= q < dlp.len() && dlp[q].1 == p;
        assert(app_port_pairs(apps)[q] == dlp[q]);
    } else {
        let j = choose|j: int| 0 <= j < apps.last().ports.len() && apps.last().ports[j] == p;
        let q = dlp.len() + j;
        assert(app_port_pairs(apps)[q] == pairs_of_app(apps.last())[j]);
        assert(app_port_pairs(apps)[q].1 == p);
    }
}

/// When no two applications share a port, the port map binds each claimed
/// port to its unique claimant's targets.
proof fn lemma_port_map_value_disjoint(apps: Seq<AppView>, i: int, p: u16)
    requires
        disjoint_ports(apps),
        0 <= i < apps.len(),
        apps[i].ports.contains(p),
    ensures
        port_map_of(apps).contains_key(p),
        port_map_of(apps)[p] == apps[i].targets,
    decreases apps.len(),
{
    let dl = apps.drop_last();
    let last = apps.last();
    lemma_insert_app_ports_at(port_map_of(dl), last.ports, last.targets, p);
    if i == apps.len() - 1 {
        assert(last == apps[i]);
        assert(last.ports.contains(p));
    } else {
        assert(!last.ports.contains(p)) by {
            if last.ports.contains(p) {
                assert(apps[apps.len() - 1].ports.contains(p));
            }
        }
        assert(disjoint_ports(dl)) by {
            assert forall|a: int, b: int, pp: u16|
                0 <= a < dl.len() && 0 <= b < dl.len() && a != b && #[trigger] dl[a].ports.contains(
                    pp,
                ) implies !(#[trigger] dl[b].ports.contains(pp)) by {
                assert(apps[a].ports.contains(pp));
                assert(!(apps[b].ports.contains(pp)));
            }
        }
        assert(dl[i] == apps[i]);
        lemma_port_map_value_disjoint(dl, i, p);
    }
}

/// Every binding in the port map is some claiming application's pool.
proof fn lemma_port_map_value_source(apps: Seq<AppView>, p: u16)
    requires
        port_map_of(apps).contains_key(p),
    ensures
        exists|i: int|
            0 <= i < apps.len() && (#[trigger] apps[i]).ports.contains(p) && port_map_of(apps)[p]
                == apps[i].targets,
    decreases apps.len(),
{
    let dl = apps.drop_last();
    let last = apps.last();
    lemma_insert_app_ports_at(port_map_of(dl), last.ports, last.targets, p);
    if last.ports.contains(p) {
        assert(apps[apps.len() - 1].ports.contains(p));
        assert(port_map_of(apps)[p] == apps[apps.len() - 1].targets);
    } else {
        lemma_port_map_value_source(dl, p);
        let i = choose|i: int|
            0 <= i < dl.len() && (#[trigger] dl[i]).ports.contains(p) && port_map_of(dl)[p]
                == dl[i].targets;
        assert(apps[i] == dl[i]);
        assert(apps[i].ports.contains(p));
    }
}

/// In a well-formed configuration every planned listener carries a
/// non-empty target pool, so round-robin selection on any listener is
/// always possible: a dispatcher never runs out of addresses to try.
pub proof fn lemma_plan_pools_nonempty(apps: Seq<AppView>, k: int)
    requires
        wf_apps(apps),
        0 <= k < listener_plan(apps).len(),
    ensures
        listener_plan(apps)[k].targets.len() > 0,
{
    let pairs = app_port_pairs(apps);
    let pm = port_map_of(apps);
    let e = listener_plan(apps)[k];
    lemma_plan_entry_source(pairs, pm, k);
    let q = choose|q: int|
        0 <= q < pairs.len() && (#[trigger] pairs[q]).0 == e.app_name && pairs[q].1 == e.port;
    lemma_pairs_source(apps, q);
    let a = choose|a: int|
        0 <= a < apps.len() && (#[trigger] apps[a]).name == pairs[q].0 && apps[a].ports.contains(
            pairs[q].1,
        );
    lemma_port_map_contains(apps, e.port);
    lemma_port_map_value_source(apps, e.port);
}

/// Every planned listener names an application of the configuration, so
/// looking up the balancer-state index of a planned listener's
/// application always succeeds.
pub proof fn lemma_plan_names_an_app(apps: Seq<AppView>, k: int)
    requires
        0 <= k < listener_plan(apps).len(),
    ensures
        exists|i: int|
            0 <= i < apps.len() && (#[trigger] apps[i]).name == listener_plan(apps)[k].app_name,
{
    let pairs = app_port_pairs(apps);
    let pm = port_map_of(apps);
    lemma_plan_entry_source(pairs, pm, k);
    let q = choose|q: int|
        0 <= q < pairs.len() && (#[trigger] pairs[q]).0 == listener_plan(apps)[k].app_name
            && pairs[q].1 == listener_plan(apps)[k].port;
    lemma_pairs_source(apps, q);
}

/// One listener per port: the listener plan contains a port exactly when
/// some application claims it, and contains it exactly once — a port
/// claimed by two applications gets a single listener, so startup never
/// attempts a duplicate bind.
pub proof fn lemma_one_listener_per_port(apps: Seq<AppView>, p: u16)
    ensures
        has_port(listener_plan(apps), p) <==> (exists|i: int|
            0 <= i < apps.len() && (#[trigger] apps[i]).ports.contains(p)),
        forall|k1: int, k2: int|
            0 <= k1 < listener_plan(apps).len() && 0 <= k2 < listener_plan(apps).len() && k1 != k2
                ==> listener_plan(apps)[k1].port != listener_plan(apps)[k2].port,
{
    let pairs = app_port_pairs(apps);
    let pm = port_map_of(apps);
    lemma_plan_of_at(pairs, pm, p);
    if claims_port(pairs, p) {
        let q = choose|q: int| 0 <= q < pairs.len() && pairs[q].1 == p;
        lemma_pairs_source(apps, q);
    }
    if exists|i: int| 0 <= i < apps.len() && (#[trigger] apps[i]).ports.contains(p) {
        let i = choose|i: int| 0 <= i < apps.len() && (#[trigger] apps[i]).ports.contains(p);
        lemma_claimed_port_in_pairs(apps, i, p);
    }
}

/// Traffic isolation between applications on disjoint ports: a planned
/// listener standing on one of application `i`'s ports carries exactly
/// application `i`'s name and target pool, so round-robin selection on
/// that listener can only ever return one of application `i`'s targets.
pub proof fn lemma_disjoint_apps_isolated(apps: Seq<AppView>, i: int, k: int)
    requires
        disjoint_ports(apps),
        0 <= i < apps.len(),
        0 <= k < listener_plan(apps).len(),
        apps[i].ports.contains(listener_plan(apps)[k].port),
    ensures
        listener_plan(apps)[k].app_name == apps[i].name,
        listener_plan(apps)[k].targets == apps[i].targets,
{
    let pairs = app_port_pairs(apps);
    let pm = port_map_of(apps);
    let e = listener_plan(apps)[k];
    lemma_plan_entry_source(pairs, pm, k);
    let q = choose|q: int|
        0 <= q < pairs.len() && (#[trigger] pairs[q]).0 == e.app_name && pairs[q].1 == e.port;
    lemma_pairs_source(apps, q);
    let a = choose|a: int|
        0 <= a < apps.len() && (#[trigger] apps[a]).name == pairs[q].0 && apps[a].ports.contains(
            pairs[q].1,
        );
    assert(a == i);
    lemma_port_map_value_disjoint(apps, i, e.port);
}

/// Creates the shared balancer state: one round-robin cursor per
/// application, every cursor starting at 0. The caller puts each cursor
/// behind its mutual-exclusion device; a configuration with zero
/// applications is fatal at startup and never reaches this point.
pub fn generate_mutexes(num: usize) -> (counters: Vec<usize>)
    requires
        num > 0,
    ensures
        counters@.len() == num,
        forall|k: int| 0 <= k < num ==> counters@[k] == 0,
{
    let mut counters: Vec<usize> = Vec::new();
    let mut i: usize = 0;
    while i < num
        invariant
            i <= num,
            counters@.len() == i,
            forall|k: int| 0 <= k < i ==> counters@[k] == 0,
        decreases num - i,
    {
        counters.push(0);
        i = i + 1;
    }
    counters
}

/// Finds the balancer-state index of the application named `app_name`:
/// the position of the last application carrying that name (names are
/// unique in a valid configuration, and on a duplicate the last entry
/// wins), or `None` when no application carries it.
pub fn port_to_index(app_config: &Config, app_name: &String) -> (r: Option<usize>)
    ensures
        match r {
            Some(idx) => {
                &&& idx < app_config@.len()
                &&& app_config@[idx as int].name == app_name@
                &&& forall|k: int|
                    idx < k < app_config@.len() ==> (#[trigger] app_config@[k]).name != app_name@
            },
            None => forall|k: int|
                0 <= k < app_config@.len() ==> (#[trigger] app_config@[k]).name != app_name@,
        },
{
    let mut r: Option<usize> = None;
    let mut i: usize = 0;
    while i < app_config.apps.len()
        invariant
            i <= app_config.apps.len(),
            app_config@.len() == app_config.apps.len(),
            match r {
                Some(idx) => {
                    &&& idx < i
                    &&& app_config@[idx as int].name == app_name@
                    &&& forall|k: int|
                        idx < k < i ==> (#[trigger] app_config@[k]).name != app_name@
                },
                None => forall|k: int| 0 <= k < i ==> (#[trigger] app_config@[k]).name != app_name@,
            },
        decreases app_config.apps.len() - i,
    {
        proof {
            assert(app_config@[i as int] == app_config.apps@[i as int].deep_view());
        }
        if app_config.apps[i].name == *app_name {
            r = Some(i);
        }
        i = i + 1;
    }
    r
}

/// Where a Connection Dispatcher stands in its per-listener loop.
#[derive(Clone, Copy, Debug, PartialEq, Eq, Structural)]
pub enum DispatcherState {
    /// Waiting for an inbound connection on the listener.
    Accepting,
    /// Holding an accepted client and trying to reach a backend.
    Connecting,
    /// The listener failed; this dispatcher serves no more connections.
    Stopped,
}

/// What happened at the dispatcher's current suspension point.
#[derive(Clone, Copy, Debug, PartialEq, Eq, Structural)]
pub enum DispatchEvent {
    /// An inbound connection was accepted.
    Accepted,
    /// The accept call itself failed.
    AcceptFailed,
    /// The outbound connection to the candidate backend stands.
    ConnectSucceeded,
    /// The outbound connection attempt failed.
    ConnectFailed,
}

/// What the surrounding loop must do next.
#[derive(Clone, Debug)]
pub enum DispatchAction {
    /// Attempt an outbound connection to this backend address.
    Connect(String),
    /// Hand client and backend streams to an independent relay task,
    /// then accept the next inbound connection.
    SpawnRelay,
    /// Stop serving this listener for good.
    Stop,
}

/// The events that can arrive in each dispatcher state.
pub open spec fn event_fits(state: DispatcherState, event: DispatchEvent) -> bool {
    match state {
        DispatcherState::Accepting => event == DispatchEvent::Accepted || event
            == DispatchEvent::AcceptFailed,
        DispatcherState::Connecting => event == DispatchEvent::ConnectSucceeded || event
            == DispatchEvent::ConnectFailed,
        DispatcherState::Stopped => false,
    }
}

/// One decision step of the Connection Dispatcher: from the current state
/// and the event observed at the last suspension point, the next state and
/// the action to perform. The cursor advances exactly when a backend is
/// (re)selected — on a fresh accept and on every connect failure, which
/// retries with the next round-robin target, without bound and without
/// backoff. A listener error stops the dispatcher permanently; a relayed
/// connection is fire-and-forget and the dispatcher returns to accepting.
pub fn dispatch_step(
    state: DispatcherState,
    event: DispatchEvent,
    targets: &Vec<String>,
    target_id: &mut usize,
) -> (r: (DispatcherState, DispatchAction))
    requires
        targets@.len() > 0,
        event_fits(state, event),
    ensures
        state == DispatcherState::Accepting && event == DispatchEvent::Accepted ==> {
            &&& r.0 == DispatcherState::Connecting
            &&& *final(target_id) == wrap_inc(*old(target_id))
            &&& (r.1 matches DispatchAction::Connect(t) && t@ == targets.deep_view()[wrap_inc(
                *old(target_id),
            ) as int % targets@.len() as int])
        },
        state == DispatcherState::Accepting && event == DispatchEvent::AcceptFailed ==> {
            &&& r.0 == DispatcherState::Stopped
            &&& (r.1 matches DispatchAction::Stop)
            &&& *final(target_id) == *old(target_id)
        },
        state == DispatcherState::Connecting && event == DispatchEvent::ConnectSucceeded ==> {
            &&& r.0 == DispatcherState::Accepting
            &&& (r.1 matches DispatchAction::SpawnRelay)
            &&& *final(target_id) == *old(target_id)
        },
        state == DispatcherState::Connecting && event == DispatchEvent::ConnectFailed ==> {
            &&& r.0 == DispatcherState::Connecting
            &&& *final(target_id) == wrap_inc(*old(target_id))
            &&& (r.1 matches DispatchAction::Connect(t) && t@ == targets.deep_view()[wrap_inc(
                *old(target_id),
            ) as int % targets@.len() as int])
        },
{
    match state {
        DispatcherState::Accepting => {
            if event == DispatchEvent::Accepted {
                let target_server = round_robin(targets, target_id);
                (DispatcherState::Connecting, DispatchAction::Connect(target_server))
            } else {
                (DispatcherState::Stopped, DispatchAction::Stop)
            }
        },
        DispatcherState::Connecting => {
            if event == DispatchEvent::ConnectSucceeded {
                (DispatcherState::Accepting, DispatchAction::SpawnRelay)
            } else {
                let target_server = round_robin(targets, target_id);
                (DispatcherState::Connecting, DispatchAction::Connect(target_server))
            }
        },
        DispatcherState::Stopped => {
            proof {
                assert(false);
            }
            (DispatcherState::Stopped, DispatchAction::Stop)
        },
    }
}

/// The decimal digit character for `d`.
pub open spec fn digit_char(d: int) -> char
    recommends
        0 <= d < 10,
{
    if d == 0 {
        '0'
    } else if d == 1 {
        '1'
    } else if d == 2 {
        '2'
    } else if d == 3 {
        '3'
    } else if d == 4 {
        '4'
    } else if d == 5 {
        '5'
    } else if d == 6 {
        '6'
    } else if d == 7 {
        '7'
    } else if d == 8 {
        '8'
    } else {
        '9'
    }
}

/// The decimal representation of `n`, most significant digit first, with
/// no leading zero (a single `'0'` for 0).
pub open spec fn dec_rep(n: int) -> Seq<char>
    recommends
        n >= 0,
    decreases n,
{
    if n < 10 {
        seq![digit_char(n)]
    } else {
        dec_rep(n / 10).push(digit_char(n % 10))
    }
}

/// The one-character string for decimal digit `d`.
fn digit_str(d: u16) -> (s: &'static str)
    requires
        d < 10,
    ensures
        s@ == seq![digit_char(d as int)],
{
    proof {
        reveal_strlit("0");
        reveal_strlit("1");
        reveal_strlit("2");
        reveal_strlit("3");
        reveal_strlit("4");
        reveal_strlit("5");
        reveal_strlit("6");
        reveal_strlit("7");
        reveal_strlit("8");
        reveal_strlit("9");
    }
    let s: &'static str = if d == 0 {
        "0"
    } else if d == 1 {
        "1"
    } else if d == 2 {
        "2"
    } else if d == 3 {
        "3"
    } else if d == 4 {
        "4"
    } else if d == 5 {
        "5"
    } else if d == 6 {
        "6"
    } else if d == 7 {
        "7"
    } else if d == 8 {
        "8"
    } else {
        "9"
    };
    proof {
        assert(s@ =~= seq![digit_char(d as int)]);
    }
    s
}

/// Writes a port number in decimal.
pub fn u16_to_dec(n: u16) -> (s: String)
    ensures
        s@ == dec_rep(n as int),
    decreases n,
{
    if n < 10 {
        let s = digit_str(n).to_owned();
        proof {
            assert(s@ =~= dec_rep(n as int));
        }
        s
    } else {
        let mut s = u16_to_dec(n / 10);
        s.append(digit_str(n % 10));
        proof {
            assert(s@ =~= dec_rep(n as int));
        }
        s
    }
}

/// The human-readable summary of one finished relay, naming the
/// client-facing port and the backend address the bytes went to.
pub fn transfer_summary(client_port: u16, target: &String) -> (s: String)
    ensures
        s@ == "Proxying :"@ + dec_rep(client_port as int) + " to "@ + target@,
{
    let mut s = "Proxying :".to_owned();
    let digits = u16_to_dec(client_port);
    s.append(digits.as_str());
    s.append(" to ");
    s.append(target.as_str());
    proof {
        assert(s@ =~= "Proxying :"@ + dec_rep(client_port as int) + " to "@ + target@);
    }
    s
}

} // verus!
