//! The service-configuration impact graph.
//!
//! Built once from the services and templates found on disk and queried
//! repeatedly afterwards: which templates a settings extension affects,
//! which services a template's render touches, and — the inverse — which
//! templates matter to a service. Directory traversal belongs to the
//! surrounding application; this module holds the graph, its queries, and
//! the proof that the two impact queries are mutual inverses.

use crate::kvlist::{
    keys_distinct, kv_find, kv_map, lemma_kv_map_absent, lemma_kv_map_index, lemma_kv_map_push,
    lemma_kv_map_update,
};
use crate::service::{Service, ServiceV};
use crate::template::{ConfigTemplate, ConfigTemplateV};
use crate::text::contains_name;
use vstd::prelude::*;

verus! {

broadcast use vstd::std_specs::vec::group_vec_axioms;

/// A template affects a service when the template records the service's
/// canonical path among its affected services.
pub open spec fn affects(t: ConfigTemplateV, s: ServiceV) -> bool {
    t.affected_services.contains(s.filepath)
}

/// A template is affected by a settings extension when its declared
/// requirements include the extension's name.
pub open spec fn requires_extension(t: ConfigTemplateV, name: Seq<char>) -> bool {
    t.extension_requirements.contains(name)
}

/// The view of a service, for mapping keyed entries.
pub open spec fn service_view_fn() -> spec_fn(Service) -> ServiceV {
    |s: Service| s@
}

/// The services a template resolves to against a loaded service map:
/// each recorded path that names a known service, in order. Paths with
/// no matching service are dropped.
pub open spec fn spec_affected_services(
    m: Map<Seq<char>, ServiceV>,
    paths: Seq<Seq<char>>,
) -> Seq<ServiceV> {
    paths.filter(|p: Seq<char>| m.dom().contains(p)).map_values(|p: Seq<char>| m[p])
}

/// The service map built from services in load order: each service is
/// keyed by its canonical path, and a later service with the same path
/// replaces an earlier one.
pub open spec fn services_map_of(svcs: Seq<ServiceV>) -> Map<Seq<char>, ServiceV>
    decreases svcs.len(),
{
    if svcs.len() == 0 {
        Map::empty()
    } else {
        services_map_of(svcs.drop_last()).insert(svcs.last().filepath, svcs.last())
    }
}

/// The loaded, immutable graph of services and configuration templates.
#[derive(Debug, Clone, PartialEq, Eq)]
pub struct ServiceConfigurations {
    /// The loaded services, keyed by canonical file path.
    services: Vec<(String, Service)>,
    /// The loaded templates, in load order.
    config_templates: Vec<ConfigTemplate>,
}

impl ServiceConfigurations {
    /// The loaded services as a mapping from canonical path to service.
    pub closed spec fn services_map(&self) -> Map<Seq<char>, ServiceV> {
        kv_map(self.services@, service_view_fn())
    }

    /// The loaded services in load order.
    pub closed spec fn services_values(&self) -> Seq<ServiceV> {
        Seq::new(self.services@.len(), |i: int| self.services@[i].1@)
    }

    /// The loaded templates in load order.
    pub closed spec fn templates(&self) -> Seq<ConfigTemplateV> {
        self.config_templates.deep_view()
    }

    /// Well-formed: service paths are distinct and each entry is keyed
    /// by the path of the service it holds.
    pub closed spec fn wf(&self) -> bool {
        &&& keys_distinct(self.services@)
        &&& forall|i: int|
            0 <= i < self.services@.len() ==> (#[trigger] self.services@[i]).0@
                == self.services@[i].1.filepath@
    }

    /// `s` is one of the loaded services, found under its own path.
    pub open spec fn has_service(&self, s: ServiceV) -> bool {
        &&& self.services_map().dom().contains(s.filepath)
        &&& self.services_map()[s.filepath] == s
    }

    /// In a well-formed graph every service sits under its own path.
    pub proof fn lemma_service_keyed_by_path(&self, k: Seq<char>)
        requires
            self.wf(),
            self.services_map().dom().contains(k),
        ensures
            self.services_map()[k].filepath == k,
    {
        let i = crate::kvlist::kv_index_of(self.services@, k);
        assert(0 <= i < self.services@.len() && self.services@[i].0@ == k);
        lemma_kv_map_index(self.services@, service_view_fn(), i);
    }

    /// Builds the graph from loaded services and templates. Services are
    /// keyed by their canonical paths; as in a map collected from a
    /// sequence, a later service with the same path replaces an earlier
    /// one.
    #[verifier::loop_isolation(false)]
    pub fn from_parts(services: Vec<Service>, config_templates: Vec<ConfigTemplate>) -> (r:
        ServiceConfigurations)
        ensures
            r.wf(),
            r.services_map() == services_map_of(services.deep_view()),
            r.templates() == config_templates.deep_view(),
    {
        let ghost svs0 = services.deep_view();
        let mut services = services;
        let total = services.len();
        let mut keyed: Vec<(String, Service)> = Vec::new();
        let mut i: usize = 0;
        proof {
            assert(svs0.take(0) =~= Seq::<ServiceV>::empty());
            assert(kv_map(keyed@, service_view_fn()) =~= Map::<Seq<char>, ServiceV>::empty());
            assert(services.deep_view() =~= svs0.skip(0));
        }
        while services.len() > 0
            invariant
                i <= total == svs0.len(),
                services.deep_view() == svs0.skip(i as int),
                services@.len() == svs0.len() - i,
                keys_distinct(keyed@),
                forall|j: int|
                    0 <= j < keyed@.len() ==> (#[trigger] keyed@[j]).0@ == keyed@[j].1.filepath@,
                kv_map(keyed@, service_view_fn()) == services_map_of(svs0.take(i as int)),
            decreases services@.len(),
        {
            let ghost deep_before = services.deep_view();
            let s = services.remove(0);
            proof {
                assert(s@ == deep_before[0]);
                assert(deep_before[0] == svs0[i as int]);
                assert forall|j: int| 0 <= j < services.deep_view().len() implies services.deep_view()[j]
                    == svs0.skip(i as int + 1)[j] by {
                    assert(services.deep_view()[j] == services@[j]@);
                    assert(services@[j]@ == deep_before[j + 1]);
                    assert(deep_before[j + 1] == svs0[i + 1 + j]);
                }
                assert(services.deep_view() =~= svs0.skip(i as int + 1));
                assert(svs0.take(i as int + 1).drop_last() =~= svs0.take(i as int));
                assert(svs0.take(i as int + 1).last() == svs0[i as int]);
            }
            let path = s.filepath.clone();
            let ghost before = keyed@;
            match kv_find(&keyed, path.as_str()) {
                Some(k) => {
                    keyed[k] = (path, s);
                    proof {
                        lemma_kv_map_update(
                            before,
                            service_view_fn(),
                            k as int,
                            keyed@[k as int].0,
                            keyed@[k as int].1,
                        );
                        assert forall|j: int| 0 <= j < keyed@.len() implies (#[trigger] keyed@[j]).0@
                            == keyed@[j].1.filepath@ by {
                            if j != k {
                                assert(keyed@[j] == before[j]);
                            }
                        }
                    }
                },
                None => {
                    keyed.push((path, s));
                    proof {
                        lemma_kv_map_push(
                            before,
                            service_view_fn(),
                            keyed@[before.len() as int].0,
                            keyed@[before.len() as int].1,
                        );
                        assert forall|j: int| 0 <= j < keyed@.len() implies (#[trigger] keyed@[j]).0@
                            == keyed@[j].1.filepath@ by {
                            if j < before.len() {
                                assert(keyed@[j] == before[j]);
                            }
                        }
                    }
                },
            }
            i += 1;
        }
        proof {
            assert(svs0.take(i as int) =~= svs0);
        }
        ServiceConfigurations { services: keyed, config_templates }
    }

    /// The loaded services, in load order.
    #[verifier::loop_isolation(false)]
    pub fn services(&self) -> (r: Vec<&Service>)
        ensures
            r.deep_view() == self.services_values(),
    {
        let mut r: Vec<&Service> = Vec::new();
        let mut i: usize = 0;
        while i < self.services.len()
            invariant
                i <= self.services@.len(),
                r@.len() == i,
                forall|j: int| 0 <= j < i ==> r.deep_view()[j] == self.services@[j].1@,
            decreases self.services@.len() - i,
        {
            let ghost r_old = r;
            r.push(&self.services[i].1);
            proof {
                assert(r.deep_view() =~= r_old.deep_view().push(self.services@[i as int].1@));
            }
            i += 1;
        }
        proof {
            assert(r.deep_view() =~= self.services_values());
        }
        r
    }

    /// The loaded configuration templates, in load order.
    #[verifier::loop_isolation(false)]
    pub fn configuration_templates(&self) -> (r: Vec<&ConfigTemplate>)
        ensures
            r.deep_view() == self.templates(),
    {
        let mut r: Vec<&ConfigTemplate> = Vec::new();
        let mut i: usize = 0;
        while i < self.config_templates.len()
            invariant
                i <= self.config_templates@.len(),
                r@.len() == i,
                forall|j: int| 0 <= j < i ==> r.deep_view()[j] == self.config_templates@[j]@,
            decreases self.config_templates@.len() - i,
        {
            let ghost r_old = r;
            r.push(&self.config_templates[i]);
            proof {
                assert(r.deep_view() =~= r_old.deep_view().push(self.config_templates@[i as int]@));
            }
            i += 1;
        }
        proof {
            assert(r.deep_view() =~= self.templates());
        }
        r
    }

    /// The templates that must be re-rendered upon changes to the named
    /// settings extension: exactly those whose declared requirements
    /// include the name, in load order.
    #[verifier::loop_isolation(false)]
    pub fn configurations_affected_by_setting(&self, settings_extension_name: &str) -> (r: Vec<
        &ConfigTemplate,
    >)
        ensures
            r.deep_view() == self.templates().filter(
                |t: ConfigTemplateV| requires_extension(t, settings_extension_name@),
            ),
    {
        let ghost pred = |t: ConfigTemplateV| requires_extension(t, settings_extension_name@);
        let mut r: Vec<&ConfigTemplate> = Vec::new();
        let mut i: usize = 0;
        proof {
            assert(self.templates().take(0) =~= Seq::<ConfigTemplateV>::empty());
            crate::text::lemma_filter_empty::<ConfigTemplateV>(pred);
        }
        while i < self.config_templates.len()
            invariant
                i <= self.config_templates@.len(),
                r.deep_view() == self.templates().take(i as int).filter(pred),
            decreases self.config_templates@.len() - i,
        {
            proof {
                assert(self.templates()[i as int] == self.config_templates@[i as int]@);
                assert(self.templates().take(i as int + 1) =~= self.templates().take(
                    i as int,
                ).push(self.templates()[i as int]));
                crate::text::lemma_filter_push(
                    self.templates().take(i as int),
                    self.templates()[i as int],
                    pred,
                );
            }
            if contains_name(
                &self.config_templates[i].extension_requirements,
                settings_extension_name,
            ) {
                let ghost r_old = r.deep_view();
                r.push(&self.config_templates[i]);
                proof {
                    assert(r.deep_view() =~= r_old.push(self.config_templates@[i as int]@));
                }
            }
            i += 1;
        }
        proof {
            assert(self.templates().take(i as int) =~= self.templates());
        }
        r
    }

    /// The services that must be restarted when the given template has
    /// changed: its recorded paths resolved against the loaded services,
    /// in order, paths with no matching service dropped.
    #[verifier::loop_isolation(false)]
    pub fn services_affected_by_config_template(&self, config_template: &ConfigTemplate) -> (r:
        Vec<&Service>)
        requires
            self.wf(),
        ensures
            r.deep_view() == spec_affected_services(
                self.services_map(),
                config_template@.affected_services,
            ),
    {
        let ghost m = self.services_map();
        let ghost paths = config_template@.affected_services;
        let ghost dpred = |p: Seq<char>| m.dom().contains(p);
        let ghost getter = |p: Seq<char>| m[p];
        let mut r: Vec<&Service> = Vec::new();
        let mut i: usize = 0;
        proof {
            assert(paths.take(0) =~= Seq::<Seq<char>>::empty());
            crate::text::lemma_filter_empty::<Seq<char>>(dpred);
            assert(paths.take(0).filter(dpred).map_values(getter) =~= Seq::<ServiceV>::empty());
        }
        while i < config_template.affected_services.len()
            invariant
                i <= config_template.affected_services@.len(),
                r.deep_view() == paths.take(i as int).filter(dpred).map_values(getter),
            decreases config_template.affected_services@.len() - i,
        {
            proof {
                assert(paths[i as int] == config_template.affected_services@[i as int]@);
                assert(paths.take(i as int + 1) =~= paths.take(i as int).push(paths[i as int]));
                crate::text::lemma_filter_push(
                    paths.take(i as int),
                    paths[i as int],
                    dpred,
                );
            }
            match kv_find(&self.services, config_template.affected_services[i].as_str()) {
                Some(k) => {
                    proof {
                        lemma_kv_map_index(self.services@, service_view_fn(), k as int);
                        assert(paths.take(i as int).filter(dpred).push(
                            paths[i as int],
                        ).map_values(getter) =~= paths.take(i as int).filter(dpred).map_values(
                            getter,
                        ).push(m[paths[i as int]]));
                    }
                    let ghost r_old = r.deep_view();
                    r.push(&self.services[k].1);
                    proof {
                        assert(r.deep_view() =~= r_old.push(self.services@[k as int].1@));
                    }
                },
                None => {
                    proof {
                        lemma_kv_map_absent(self.services@, service_view_fn(), paths[i as int]);
                    }
                },
            }
            i += 1;
        }
        proof {
            assert(paths.take(i as int) =~= paths);
        }
        r
    }

    /// The templates associated with the given service: exactly those
    /// whose recorded paths contain the service's canonical path, in
    /// load order. The designed inverse of
    /// `services_affected_by_config_template`.
    #[verifier::loop_isolation(false)]
    pub fn config_templates_for_service(&self, service: &Service) -> (r: Vec<&ConfigTemplate>)
        ensures
            r.deep_view() == self.templates().filter(|t: ConfigTemplateV| affects(t, service@)),
    {
        let ghost pred = |t: ConfigTemplateV| affects(t, service@);
        let mut r: Vec<&ConfigTemplate> = Vec::new();
        let mut i: usize = 0;
        proof {
            assert(self.templates().take(0) =~= Seq::<ConfigTemplateV>::empty());
            crate::text::lemma_filter_empty::<ConfigTemplateV>(pred);
        }
        while i < self.config_templates.len()
            invariant
                i <= self.config_templates@.len(),
                r.deep_view() == self.templates().take(i as int).filter(pred),
            decreases self.config_templates@.len() - i,
        {
            proof {
                assert(self.templates()[i as int] == self.config_templates@[i as int]@);
                assert(self.templates().take(i as int + 1) =~= self.templates().take(
                    i as int,
                ).push(self.templates()[i as int]));
                crate::text::lemma_filter_push(
                    self.templates().take(i as int),
                    self.templates()[i as int],
                    pred,
                );
            }
            if contains_name(&self.config_templates[i].affected_services, service.filepath.as_str())
            {
                let ghost r_old = r.deep_view();
                r.push(&self.config_templates[i]);
                proof {
                    assert(r.deep_view() =~= r_old.push(self.config_templates@[i as int]@));
                }
            }
            i += 1;
        }
        proof {
            assert(self.templates().take(i as int) =~= self.templates());
        }
        r
    }
}

/// Every element of a filtered sequence is an element of the original.
pub proof fn lemma_filter_subset<A>(s: Seq<A>, pred: spec_fn(A) -> bool, x: A)
    requires
        s.filter(pred).contains(x),
    ensures
        s.contains(x),
    decreases s.len(),
{
    reveal(Seq::filter);
    if s.len() > 0 {
        if s.last() == x && pred(s.last()) && s.filter(pred).last() == x {
        } else {
            let k = choose|k: int| 0 <= k < s.filter(pred).len() && s.filter(pred)[k] == x;
            if pred(s.last()) && k == s.filter(pred).len() - 1 {
                assert(s.contains(s.last()));
            } else {
                assert(s.drop_last().filter(pred).contains(x));
                lemma_filter_subset(s.drop_last(), pred, x);
                let j = choose|j: int|
                    0 <= j < s.drop_last().len() && s.drop_last()[j] == x;
                assert(s[j] == x);
            }
        }
    }
}

/// The two impact queries are mutual inverses: for any template and
/// service of a loaded graph, the service is among the services affected
/// by the template exactly when the template is among the templates for
/// the service.
pub proof fn lemma_impact_queries_inverse(
    sc: ServiceConfigurations,
    t: ConfigTemplateV,
    s: ServiceV,
)
    requires
        sc.wf(),
        sc.templates().contains(t),
        sc.has_service(s),
    ensures
        spec_affected_services(sc.services_map(), t.affected_services).contains(s)
            <==> sc.templates().filter(|t2: ConfigTemplateV| affects(t2, s)).contains(t),
{
    let m = sc.services_map();
    let paths = t.affected_services;
    let dpred = |p: Seq<char>| m.dom().contains(p);
    let getter = |p: Seq<char>| m[p];
    let fpaths = paths.filter(dpred);
    let resolved = fpaths.map_values(getter);
    let tpred = |t2: ConfigTemplateV| affects(t2, s);

    if resolved.contains(s) {
        let k = choose|k: int| 0 <= k < resolved.len() && resolved[k] == s;
        assert(resolved[k] == m[fpaths[k]]);
        Seq::lemma_filter_pred(paths, dpred, k);
        assert(m.dom().contains(fpaths[k]));
        sc.lemma_service_keyed_by_path(fpaths[k]);
        assert(s.filepath == fpaths[k]);
        lemma_filter_subset(paths, dpred, fpaths[k]);
        assert(affects(t, s));
        let ti = choose|ti: int| 0 <= ti < sc.templates().len() && sc.templates()[ti] == t;
        Seq::lemma_filter_contains(sc.templates(), tpred, ti);
    }
    if sc.templates().filter(tpred).contains(t) {
        let k = choose|k: int|
            0 <= k < sc.templates().filter(tpred).len() && sc.templates().filter(tpred)[k] == t;
        Seq::lemma_filter_pred(sc.templates(), tpred, k);
        assert(affects(t, s));
        let pj = choose|pj: int| 0 <= pj < paths.len() && paths[pj] == s.filepath;
        assert(dpred(paths[pj]));
        Seq::lemma_filter_contains(paths, dpred, pj);
        let fk = choose|fk: int| 0 <= fk < fpaths.len() && fpaths[fk] == s.filepath;
        assert(resolved[fk] == m[s.filepath]);
        assert(resolved.contains(resolved[fk]));
    }
}

} // verus!
