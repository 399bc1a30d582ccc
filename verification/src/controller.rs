//! Mapping between the data store, the service-configuration graph, and
//! the shapes the management API serves: pure assembly and filtering of
//! payloads, plus thin delegations to the store. The request plumbing
//! around these functions belongs to the surrounding application.

use crate::datastore::{
    clone_extension_entries, ext_entries_wf, extension_map, listing_map, spec_commit, spec_delete,
    version_sets, Committed, DataStore, ExtensionEntries,
};
use crate::kvlist::keys_distinct;
use crate::models::{ConfigurationFile, ConfigurationFileView, ConfigurationFiles, Services};
use crate::service::{Service, ServiceV};
use crate::service_config::{
    affects, requires_extension, spec_affected_services, ServiceConfigurations,
};
use crate::template::{ConfigTemplate, ConfigTemplateV};
use crate::text::{
    contains_name, is_prefix_of, lemma_filter_empty, lemma_filter_push,
    lemma_first_index_determined, spec_split, str_eq, str_starts_with,
};
use vstd::prelude::*;
use vstd::string::StrSliceExecFns;

verus! {

broadcast use vstd::std_specs::vec::group_vec_axioms;

/// Failures the controller reports to the request layer.
#[derive(Debug)]
pub enum Error {
    /// A settings key that does not name a settings extension.
    InvalidKey { key: String },
    /// A request parameter that must not be empty was empty.
    EmptyInput { input: String },
    /// The data store failed during the named operation.
    DataStore { op: String },
}

/// The prefix to filter with, given the prefix of an API request and the
/// expected prefix of a subject area: the more specific of the two when
/// one extends the other, and nothing when they cannot match.
pub fn check_prefix<'a>(given: &'a str, expected: &'a str) -> (r: Option<&'a str>)
    ensures
        is_prefix_of(given@, expected@) ==> (r matches Some(p) && p@ == expected@),
        !is_prefix_of(given@, expected@) && is_prefix_of(expected@, given@) ==> (r matches Some(p)
            && p@ == given@),
        !is_prefix_of(given@, expected@) && !is_prefix_of(expected@, given@) ==> r is None,
{
    if str_starts_with(expected, given) {
        return Some(expected);
    }
    if str_starts_with(given, expected) {
        return Some(given);
    }
    None
}

/// The settings extension a settings key addresses: the second
/// dot-separated field, accepted only when the first field is
/// `settings`.
#[verifier::loop_isolation(false)]
pub fn requested_settings_extension<'a>(settings_key: &'a str) -> (r: Result<&'a str, Error>)
    ensures
        ({
            let toks = spec_split(settings_key@, '.');
            match r {
                Ok(ext) => toks.len() >= 2 && toks[0] == "settings"@ && ext@ == toks[1],
                Err(e) => {
                    &&& !(toks.len() >= 2 && toks[0] == "settings"@)
                    &&& e matches Error::InvalidKey { key } && key@ == settings_key@
                },
            }
        }),
{
    let ghost toks = spec_split(settings_key@, '.');
    let n = settings_key.unicode_len();
    let mut i1: usize = 0;
    while i1 < n && settings_key.get_char(i1) != '.'
        invariant
            n == settings_key@.len(),
            i1 <= n,
            forall|j: int| 0 <= j < i1 ==> settings_key@[j] != '.',
        decreases n - i1,
    {
        i1 += 1;
    }
    proof {
        lemma_first_index_determined(settings_key@, '.', i1 as int);
    }
    if i1 == n {
        proof {
            assert(toks == seq![settings_key@]);
        }
        return Err(Error::InvalidKey { key: settings_key.to_owned() });
    }
    let ghost rest = settings_key@.skip(i1 as int + 1);
    proof {
        assert(toks == seq![settings_key@.take(i1 as int)] + spec_split(rest, '.'));
    }
    let head = settings_key.substring_char(0, i1);
    if !str_eq(head, "settings") {
        proof {
            assert(head@ =~= settings_key@.take(i1 as int));
            assert(toks[0] != "settings"@);
        }
        return Err(Error::InvalidKey { key: settings_key.to_owned() });
    }
    let mut i2: usize = i1 + 1;
    while i2 < n && settings_key.get_char(i2) != '.'
        invariant
            n == settings_key@.len(),
            i1 + 1 <= i2 <= n,
            forall|j: int| i1 + 1 <= j < i2 ==> settings_key@[j] != '.',
        decreases n - i2,
    {
        i2 += 1;
    }
    proof {
        assert(head@ =~= settings_key@.take(i1 as int));
        assert forall|j: int| 0 <= j < i2 - i1 - 1 implies rest[j] != '.' by {
            assert(rest[j] == settings_key@[i1 + 1 + j]);
        }
        if i2 < n {
            assert(rest[i2 - i1 - 1] == settings_key@[i2 as int]);
        }
        lemma_first_index_determined(rest, '.', i2 - i1 - 1);
        if i2 - i1 - 1 == rest.len() {
            assert(spec_split(rest, '.') == seq![rest]);
        } else {
            assert(spec_split(rest, '.') == seq![rest.take(i2 - i1 - 1)] + spec_split(
                rest.skip(i2 - i1),
                '.',
            ));
        }
        assert(toks[1] == rest.take(i2 - i1 - 1) || (i2 == n && toks[1] == rest));
        assert(rest.take(i2 - i1 - 1) =~= settings_key@.subrange(i1 as int + 1, i2 as int));
        assert(toks.len() >= 2);
    }
    let ext = settings_key.substring_char(i1 + 1, i2);
    proof {
        if i2 == n {
            assert(rest =~= settings_key@.subrange(i1 as int + 1, i2 as int));
        }
    }
    Ok(ext)
}

/// Splits a comma-separated request parameter into its fields; an empty
/// parameter is rejected with the parameter's name.
pub fn comma_separated(key_name: &str, input: &str) -> (r: Result<Vec<String>, Error>)
    ensures
        match r {
            Ok(v) => input@.len() > 0 && v.deep_view() == spec_split(input@, ','),
            Err(e) => {
                &&& input@.len() == 0
                &&& e matches Error::EmptyInput { input: n } && n@ == key_name@
            },
        },
{
    if input.unicode_len() == 0 {
        return Err(Error::EmptyInput { input: key_name.to_owned() });
    }
    Ok(crate::text::split_on_char(input, ','))
}

/// The transaction a request addresses: the name it carries, or the
/// conventional default when it carries none.
pub fn transaction_name<'a>(tx: Option<&'a String>) -> (r: &'a str)
    ensures
        match tx {
            Some(name) => r@ == name@,
            None => r@ == "default"@,
        },
{
    match tx {
        Some(name) => name.as_str(),
        None => "default",
    }
}

/// The names of the open transactions in the data store.
pub fn list_transactions<D: DataStore>(datastore: &D) -> (r: Result<Vec<String>, Error>)
    requires
        datastore.inv(),
    ensures
        match r {
            Ok(v) => v.deep_view().to_set() == datastore.model().pending.dom(),
            Err(e) => e matches Error::DataStore { .. },
        },
{
    match datastore.list_transactions() {
        Ok(v) => Ok(v),
        Err(_) => Err(Error::DataStore { op: String::from_str("list_transactions") }),
    }
}

/// The pending data of the named transaction: empty if there are no
/// pending settings under that name.
pub fn get_transaction<D: DataStore>(datastore: &D, transaction: &str) -> (r: Result<
    ExtensionEntries,
    Error,
>)
    requires
        datastore.inv(),
    ensures
        match r {
            Ok(d) => ext_entries_wf(d@) && extension_map(d@) == if datastore.model().pending.dom()
                .contains(transaction@) {
                datastore.model().pending[transaction@]
            } else {
                Map::<Seq<char>, Map<Seq<char>, crate::value::ValueModel>>::empty()
            },
            Err(e) => e matches Error::DataStore { .. },
        },
{
    let pending = Committed::Pending { tx: transaction.to_owned() };
    match datastore.get_all(&pending) {
        Ok(Some(d)) => Ok(clone_extension_entries(d)),
        Ok(None) => {
            proof {
                assert(extension_map(Seq::<(String, crate::datastore::VersionEntries)>::empty())
                    =~= Map::<Seq<char>, Map<Seq<char>, crate::value::ValueModel>>::empty());
            }
            Ok(Vec::new())
        },
        Err(_) => Err(Error::DataStore { op: String::from_str("get_transaction") }),
    }
}

/// Deletes the named transaction, dropping any uncommitted settings under
/// it, and reports what was discarded.
pub fn delete_transaction<D: DataStore>(datastore: &mut D, transaction: &str) -> (r: Result<
    Vec<(String, Vec<String>)>,
    Error,
>)
    requires
        old(datastore).inv(),
    ensures
        final(datastore).inv(),
        match r {
            Ok(v) => {
                &&& final(datastore).model() == spec_delete(old(datastore).model(), transaction@)
                &&& keys_distinct(v@)
                &&& listing_map(v@) == if old(datastore).model().pending.dom().contains(
                    transaction@,
                ) {
                    version_sets(old(datastore).model().pending[transaction@])
                } else {
                    Map::<Seq<char>, Set<Seq<char>>>::empty()
                }
            },
            Err(e) => e matches Error::DataStore { .. },
        },
{
    match datastore.delete_transaction(transaction) {
        Ok(v) => Ok(v),
        Err(_) => Err(Error::DataStore { op: String::from_str("delete_pending") }),
    }
}

/// Makes the named transaction's pending settings live and reports the
/// changed extensions and versions.
pub fn commit_transaction<D: DataStore>(datastore: &mut D, transaction: &str) -> (r: Result<
    Vec<(String, Vec<String>)>,
    Error,
>)
    requires
        old(datastore).inv(),
    ensures
        final(datastore).inv(),
        match r {
            Ok(v) => {
                &&& final(datastore).model() == spec_commit(old(datastore).model(), transaction@)
                &&& keys_distinct(v@)
                &&& listing_map(v@) == if old(datastore).model().pending.dom().contains(
                    transaction@,
                ) {
                    version_sets(old(datastore).model().pending[transaction@])
                } else {
                    Map::<Seq<char>, Set<Seq<char>>>::empty()
                }
            },
            Err(e) => e matches Error::DataStore { .. },
        },
{
    match datastore.commit_transaction(transaction) {
        Ok(v) => Ok(v),
        Err(_) => Err(Error::DataStore { op: String::from_str("commit") }),
    }
}

/// Payload pairs viewed mathematically: each name with the view of what
/// it maps to.
pub open spec fn pairs_view<T: DeepView>(s: Seq<(String, T)>) -> Seq<(Seq<char>, T::V)> {
    Seq::new(s.len(), |i: int| (s[i].0@, s[i].1.deep_view()))
}

/// The served shape of one service: the names of the templates recorded
/// for it, in load order, and its restart commands.
pub open spec fn spec_serialize_service(
    templates: Seq<ConfigTemplateV>,
    s: ServiceV,
) -> crate::models::ServiceView {
    crate::models::ServiceView {
        configuration_files: templates.filter(|t: ConfigTemplateV| affects(t, s)).map_values(
            |t: ConfigTemplateV| t.name,
        ),
        restart_commands: s.restart_commands,
    }
}

/// The services payload built from the given services, in their order.
pub open spec fn spec_services_payload(
    templates: Seq<ConfigTemplateV>,
    svcs: Seq<ServiceV>,
) -> Seq<(Seq<char>, crate::models::ServiceView)> {
    svcs.map_values(|s: ServiceV| (s.name, spec_serialize_service(templates, s)))
}

/// One service as the API serves it.
#[verifier::loop_isolation(false)]
pub fn serialize_service(service: &Service, service_configuration: &ServiceConfigurations) -> (r:
    crate::models::Service)
    ensures
        r@ == spec_serialize_service(service_configuration.templates(), service@),
{
    let ts = service_configuration.config_templates_for_service(service);
    let mut configuration_files: Vec<String> = Vec::new();
    let mut i: usize = 0;
    while i < ts.len()
        invariant
            i <= ts@.len(),
            configuration_files@.len() == i,
            forall|j: int|
                0 <= j < i ==> configuration_files.deep_view()[j] == ts.deep_view()[j].name,
        decreases ts@.len() - i,
    {
        let ghost files_old = configuration_files;
        configuration_files.push(ts[i].name.clone());
        proof {
            assert(configuration_files.deep_view() =~= files_old.deep_view().push(
                ts.deep_view()[i as int].name,
            ));
        }
        i += 1;
    }
    let restart_commands = crate::text::clone_string_vec(&service.restart_commands);
    proof {
        assert(configuration_files.deep_view() =~= service_configuration.templates().filter(
            |t: ConfigTemplateV| affects(t, service@),
        ).map_values(|t: ConfigTemplateV| t.name));
    }
    crate::models::Service { configuration_files, restart_commands }
}

/// The services payload: every loaded service under its declared name.
#[verifier::loop_isolation(false)]
pub fn get_services(service_configuration: &ServiceConfigurations) -> (r: Services)
    ensures
        pairs_view(r@) == spec_services_payload(
            service_configuration.templates(),
            service_configuration.services_values(),
        ),
{
    let svs = service_configuration.services();
    let mut r: Services = Vec::new();
    let mut i: usize = 0;
    while i < svs.len()
        invariant
            i <= svs@.len(),
            r@.len() == i,
            svs.deep_view() == service_configuration.services_values(),
            forall|j: int|
                0 <= j < i ==> pairs_view(r@)[j] == (
                    svs.deep_view()[j].name,
                    spec_serialize_service(
                        service_configuration.templates(),
                        svs.deep_view()[j],
                    ),
                ),
        decreases svs@.len() - i,
    {
        let s = svs[i];
        let m = serialize_service(s, service_configuration);
        let ghost r_old = r;
        r.push((s.name.clone(), m));
        proof {
            assert(s@ == svs.deep_view()[i as int]);
            assert(pairs_view(r@) =~= pairs_view(r_old@).push((s.name@, m@)));
        }
        i += 1;
    }
    proof {
        assert(pairs_view(r@) =~= spec_services_payload(
            service_configuration.templates(),
            service_configuration.services_values(),
        ));
    }
    r
}

/// The services payload narrowed to the services whose names start with
/// the given prefix.
#[verifier::loop_isolation(false)]
pub fn get_services_prefix(service_configuration: &ServiceConfigurations, prefix: &str) -> (r:
    Services)
    ensures
        pairs_view(r@) == spec_services_payload(
            service_configuration.templates(),
            service_configuration.services_values().filter(
                |s: ServiceV| is_prefix_of(prefix@, s.name),
            ),
        ),
{
    let ghost pred = |s: ServiceV| is_prefix_of(prefix@, s.name);
    let ghost all = service_configuration.services_values();
    let svs = service_configuration.services();
    let mut r: Services = Vec::new();
    let mut i: usize = 0;
    proof {
        assert(all.take(0) =~= Seq::<ServiceV>::empty());
        lemma_filter_empty::<ServiceV>(pred);
        assert(pairs_view(r@) =~= spec_services_payload(
            service_configuration.templates(),
            all.take(0).filter(pred),
        ));
    }
    while i < svs.len()
        invariant
            i <= svs@.len(),
            svs.deep_view() == all,
            pairs_view(r@) == spec_services_payload(
                service_configuration.templates(),
                all.take(i as int).filter(pred),
            ),
        decreases svs@.len() - i,
    {
        let s = svs[i];
        proof {
            assert(all.take(i as int + 1) =~= all.take(i as int).push(all[i as int]));
            lemma_filter_push(all.take(i as int), all[i as int], pred);
        }
        if str_starts_with(s.name.as_str(), prefix) {
            let m = serialize_service(s, service_configuration);
            let ghost r_old = r;
            r.push((s.name.clone(), m));
            proof {
                assert(s@ == svs.deep_view()[i as int]);
                assert(pairs_view(r@) =~= pairs_view(r_old@).push((s.name@, m@)));
                assert(pairs_view(r@) =~= spec_services_payload(
                    service_configuration.templates(),
                    all.take(i as int + 1).filter(pred),
                ));
            }
        }
        i += 1;
    }
    proof {
        assert(all.take(i as int) =~= all);
    }
    r
}

/// The services payload narrowed to the services with the given names.
#[verifier::loop_isolation(false)]
pub fn get_services_names(service_configuration: &ServiceConfigurations, names: &Vec<String>)
    -> (r: Services)
    ensures
        pairs_view(r@) == spec_services_payload(
            service_configuration.templates(),
            service_configuration.services_values().filter(
                |s: ServiceV| names.deep_view().contains(s.name),
            ),
        ),
{
    let ghost pred = |s: ServiceV| names.deep_view().contains(s.name);
    let ghost all = service_configuration.services_values();
    let svs = service_configuration.services();
    let mut r: Services = Vec::new();
    let mut i: usize = 0;
    proof {
        assert(all.take(0) =~= Seq::<ServiceV>::empty());
        lemma_filter_empty::<ServiceV>(pred);
        assert(pairs_view(r@) =~= spec_services_payload(
            service_configuration.templates(),
            all.take(0).filter(pred),
        ));
    }
    while i < svs.len()
        invariant
            i <= svs@.len(),
            svs.deep_view() == all,
            pairs_view(r@) == spec_services_payload(
                service_configuration.templates(),
                all.take(i as int).filter(pred),
            ),
        decreases svs@.len() - i,
    {
        let s = svs[i];
        proof {
            assert(all.take(i as int + 1) =~= all.take(i as int).push(all[i as int]));
            lemma_filter_push(all.take(i as int), all[i as int], pred);
        }
        if contains_name(names, s.name.as_str()) {
            let m = serialize_service(s, service_configuration);
            let ghost r_old = r;
            r.push((s.name.clone(), m));
            proof {
                assert(s@ == svs.deep_view()[i as int]);
                assert(pairs_view(r@) =~= pairs_view(r_old@).push((s.name@, m@)));
                assert(pairs_view(r@) =~= spec_services_payload(
                    service_configuration.templates(),
                    all.take(i as int + 1).filter(pred),
                ));
            }
        }
        i += 1;
    }
    proof {
        assert(all.take(i as int) =~= all);
    }
    r
}

/// The served shape of one template's render destinations: for each
/// destination, the target path, the template's source path, and the
/// mode.
pub open spec fn spec_serialize_configuration_files(t: ConfigTemplateV) -> Seq<
    ConfigurationFileView,
> {
    t.render_destinations.map_values(
        |rd: crate::template::RenderDestinationV|
            ConfigurationFileView {
                path: rd.path,
                template_path: t.template_filepath,
                mode: Some(rd.mode),
            },
    )
}

/// One template's configuration files as the API serves them.
#[verifier::loop_isolation(false)]
pub fn serialize_configuration_files(config_template: &ConfigTemplate) -> (r: Vec<
    ConfigurationFile,
>)
    ensures
        r.deep_view() == spec_serialize_configuration_files(config_template@),
{
    let mut r: Vec<ConfigurationFile> = Vec::new();
    let mut i: usize = 0;
    while i < config_template.render_destinations.len()
        invariant
            i <= config_template.render_destinations@.len(),
            r@.len() == i,
            forall|j: int|
                0 <= j < i ==> r.deep_view()[j] == spec_serialize_configuration_files(
                    config_template@,
                )[j],
        decreases config_template.render_destinations@.len() - i,
    {
        let rd = &config_template.render_destinations[i];
        let file = ConfigurationFile {
            path: rd.path.clone(),
            template_path: config_template.template_filepath.clone(),
            mode: Some(rd.mode.clone()),
        };
        let ghost r_old = r;
        r.push(file);
        proof {
            assert(r.deep_view()[i as int] == spec_serialize_configuration_files(
                config_template@,
            )[i as int]);
            assert forall|j: int| 0 <= j < i implies r.deep_view()[j]
                == spec_serialize_configuration_files(config_template@)[j] by {
                assert(r.deep_view()[j] == r_old.deep_view()[j]);
            }
        }
        i += 1;
    }
    proof {
        assert(r.deep_view() =~= spec_serialize_configuration_files(config_template@));
    }
    r
}

/// One template's configuration files, each under the template's name.
pub open spec fn spec_config_file_pairs(t: ConfigTemplateV) -> Seq<
    (Seq<char>, ConfigurationFileView),
> {
    spec_serialize_configuration_files(t).map_values(
        |f: ConfigurationFileView| (t.name, f),
    )
}

/// The configuration-files payload of the given templates, in order.
pub open spec fn spec_config_files_payload(ts: Seq<ConfigTemplateV>) -> Seq<
    (Seq<char>, ConfigurationFileView),
>
    decreases ts.len(),
{
    if ts.len() == 0 {
        Seq::empty()
    } else {
        spec_config_files_payload(ts.drop_last()) + spec_config_file_pairs(ts.last())
    }
}

/// Appends one template's pairs to a payload under construction.
#[verifier::loop_isolation(false)]
fn push_config_file_pairs(
    r: &mut ConfigurationFiles,
    config_template: &ConfigTemplate,
)
    ensures
        pairs_view(final(r)@) == pairs_view(old(r)@) + spec_config_file_pairs(config_template@),
{
    let mut files = serialize_configuration_files(config_template);
    let ghost files0 = files.deep_view();
    let ghost start = r@.len();
    let mut k: usize = 0;
    let total = files.len();
    proof {
        assert(pairs_view(r@) =~= pairs_view(r@) + spec_config_file_pairs(
            config_template@,
        ).take(0));
        assert(files.deep_view() =~= files0.skip(0));
    }
    while files.len() > 0
        invariant
            k <= total == files0.len(),
            files0 == spec_serialize_configuration_files(config_template@),
            files@.len() == files0.len() - k,
            files.deep_view() == files0.skip(k as int),
            pairs_view(r@) == pairs_view(old(r)@) + spec_config_file_pairs(
                config_template@,
            ).take(k as int),
        decreases files@.len(),
    {
        let ghost deep_before = files.deep_view();
        let file = files.remove(0);
        proof {
            assert(file.deep_view() == deep_before[0]);
            assert(deep_before[0] == files0[k as int]);
            assert forall|j: int| 0 <= j < files.deep_view().len() implies files.deep_view()[j]
                == files0.skip(k as int + 1)[j] by {
                assert(files.deep_view()[j] == files@[j].deep_view());
                assert(files@[j].deep_view() == deep_before[j + 1]);
            }
            assert(files.deep_view() =~= files0.skip(k as int + 1));
        }
        let ghost r_old = r@;
        r.push((config_template.name.clone(), file));
        proof {
            assert(pairs_view(r@) =~= pairs_view(r_old).push(
                (config_template.name@, files0[k as int]),
            ));
            assert(spec_config_file_pairs(config_template@).take(k as int + 1)
                =~= spec_config_file_pairs(config_template@).take(k as int).push(
                spec_config_file_pairs(config_template@)[k as int],
            ));
            assert(pairs_view(r@) =~= pairs_view(old(r)@) + spec_config_file_pairs(
                config_template@,
            ).take(k as int + 1));
        }
        k += 1;
    }
    proof {
        assert(spec_config_file_pairs(config_template@).take(k as int) =~= spec_config_file_pairs(
            config_template@,
        ));
    }
}

/// The configuration-files payload: every render destination of every
/// loaded template, under the template's name.
#[verifier::loop_isolation(false)]
pub fn get_configuration_files(service_configuration: &ServiceConfigurations) -> (r:
    ConfigurationFiles)
    ensures
        pairs_view(r@) == spec_config_files_payload(service_configuration.templates()),
{
    let ghost all = service_configuration.templates();
    let ts = service_configuration.configuration_templates();
    let mut r: ConfigurationFiles = Vec::new();
    let mut i: usize = 0;
    proof {
        assert(all.take(0) =~= Seq::<ConfigTemplateV>::empty());
        assert(pairs_view(r@) =~= spec_config_files_payload(all.take(0)));
    }
    while i < ts.len()
        invariant
            i <= ts@.len(),
            ts.deep_view() == all,
            pairs_view(r@) == spec_config_files_payload(all.take(i as int)),
        decreases ts@.len() - i,
    {
        let ghost r_before = pairs_view(r@);
        push_config_file_pairs(&mut r, ts[i]);
        proof {
            assert(all.take(i as int + 1).drop_last() =~= all.take(i as int));
            assert(ts[i as int]@ == all[i as int]);
        }
        i += 1;
    }
    proof {
        assert(all.take(i as int) =~= all);
    }
    r
}

/// The configuration-files payload narrowed to the templates whose names
/// start with the given prefix.
#[verifier::loop_isolation(false)]
pub fn get_configuration_files_prefix(
    service_configuration: &ServiceConfigurations,
    prefix: &str,
) -> (r: ConfigurationFiles)
    ensures
        pairs_view(r@) == spec_config_files_payload(
            service_configuration.templates().filter(
                |t: ConfigTemplateV| is_prefix_of(prefix@, t.name),
            ),
        ),
{
    let ghost pred = |t: ConfigTemplateV| is_prefix_of(prefix@, t.name);
    let ghost all = service_configuration.templates();
    let ts = service_configuration.configuration_templates();
    let mut r: ConfigurationFiles = Vec::new();
    let mut i: usize = 0;
    proof {
        assert(all.take(0) =~= Seq::<ConfigTemplateV>::empty());
        lemma_filter_empty::<ConfigTemplateV>(pred);
        assert(pairs_view(r@) =~= spec_config_files_payload(all.take(0).filter(pred)));
    }
    while i < ts.len()
        invariant
            i <= ts@.len(),
            ts.deep_view() == all,
            pairs_view(r@) == spec_config_files_payload(all.take(i as int).filter(pred)),
        decreases ts@.len() - i,
    {
        proof {
            assert(all.take(i as int + 1) =~= all.take(i as int).push(all[i as int]));
            lemma_filter_push(all.take(i as int), all[i as int], pred);
            assert(ts[i as int]@ == all[i as int]);
        }
        if str_starts_with(ts[i].name.as_str(), prefix) {
            push_config_file_pairs(&mut r, ts[i]);
            proof {
                assert(all.take(i as int).filter(pred).push(all[i as int])
                    =~= all.take(i as int + 1).filter(pred));
                assert(all.take(i as int + 1).filter(pred).drop_last() =~= all.take(
                    i as int,
                ).filter(pred));
            }
        }
        i += 1;
    }
    proof {
        assert(all.take(i as int) =~= all);
    }
    r
}

/// The configuration-files payload narrowed to the templates with the
/// given names.
#[verifier::loop_isolation(false)]
pub fn get_configuration_files_names(
    service_configuration: &ServiceConfigurations,
    names: &Vec<String>,
) -> (r: ConfigurationFiles)
    ensures
        pairs_view(r@) == spec_config_files_payload(
            service_configuration.templates().filter(
                |t: ConfigTemplateV| names.deep_view().contains(t.name),
            ),
        ),
{
    let ghost pred = |t: ConfigTemplateV| names.deep_view().contains(t.name);
    let ghost all = service_configuration.templates();
    let ts = service_configuration.configuration_templates();
    let mut r: ConfigurationFiles = Vec::new();
    let mut i: usize = 0;
    proof {
        assert(all.take(0) =~= Seq::<ConfigTemplateV>::empty());
        lemma_filter_empty::<ConfigTemplateV>(pred);
        assert(pairs_view(r@) =~= spec_config_files_payload(all.take(0).filter(pred)));
    }
    while i < ts.len()
        invariant
            i <= ts@.len(),
            ts.deep_view() == all,
            pairs_view(r@) == spec_config_files_payload(all.take(i as int).filter(pred)),
        decreases ts@.len() - i,
    {
        proof {
            assert(all.take(i as int + 1) =~= all.take(i as int).push(all[i as int]));
            lemma_filter_push(all.take(i as int), all[i as int], pred);
            assert(ts[i as int]@ == all[i as int]);
        }
        if contains_name(names, ts[i].name.as_str()) {
            push_config_file_pairs(&mut r, ts[i]);
            proof {
                assert(all.take(i as int).filter(pred).push(all[i as int])
                    =~= all.take(i as int + 1).filter(pred));
                assert(all.take(i as int + 1).filter(pred).drop_last() =~= all.take(
                    i as int,
                ).filter(pred));
            }
        }
        i += 1;
    }
    proof {
        assert(all.take(i as int) =~= all);
    }
    r
}

/// The names of the services one template resolves to.
pub open spec fn template_service_names(
    m: Map<Seq<char>, ServiceV>,
    t: ConfigTemplateV,
) -> Set<Seq<char>> {
    spec_affected_services(m, t.affected_services).map_values(|s: ServiceV| s.name).to_set()
}

/// The names of every service affected by a change to the named
/// extension: the services of some loaded template that requires it.
pub open spec fn affected_service_names(
    templates: Seq<ConfigTemplateV>,
    m: Map<Seq<char>, ServiceV>,
    extension: Seq<char>,
) -> Set<Seq<char>> {
    Set::new(
        |n: Seq<char>|
            exists|ti: int|
                0 <= ti < templates.len() && requires_extension(
                    #[trigger] templates[ti],
                    extension,
                ) && template_service_names(m, templates[ti]).contains(n),
    )
}

/// The names of the services affected by a change to the named
/// extension, each name once.
#[verifier::loop_isolation(false)]
pub fn affected_services_for_extension(
    service_configuration: &ServiceConfigurations,
    extension: &str,
) -> (names: Vec<String>)
    requires
        service_configuration.wf(),
    ensures
        forall|a: int, b: int|
            0 <= a < b < names@.len() ==> names.deep_view()[a] != names.deep_view()[b],
        names.deep_view().to_set() == affected_service_names(
            service_configuration.templates(),
            service_configuration.services_map(),
            extension@,
        ),
{
    let ghost templates = service_configuration.templates();
    let ghost m = service_configuration.services_map();
    let ghost reqpred = |t: ConfigTemplateV| requires_extension(t, extension@);
    let ghost target = affected_service_names(templates, m, extension@);
    let ts = service_configuration.configurations_affected_by_setting(extension);
    let ghost fs = templates.filter(reqpred);
    let mut names: Vec<String> = Vec::new();
    let mut ti: usize = 0;
    while ti < ts.len()
        invariant
            ti <= ts@.len(),
            ts.deep_view() == fs,
            forall|a: int, b: int|
                0 <= a < b < names@.len() ==> names.deep_view()[a] != names.deep_view()[b],
            forall|j: int| 0 <= j < names@.len() ==> target.contains(#[trigger] names.deep_view()[j]),
            forall|t0: int, k0: int|
                0 <= t0 < ti && 0 <= k0 < spec_affected_services(
                    m,
                    fs[t0].affected_services,
                ).len() ==> names.deep_view().contains(
                    #[trigger] spec_affected_services(m, fs[t0].affected_services)[k0].name,
                ),
        decreases ts@.len() - ti,
    {
        let svs = service_configuration.services_affected_by_config_template(ts[ti]);
        proof {
            assert(ts[ti as int]@ == fs[ti as int]);
            assert(svs.deep_view() == spec_affected_services(m, fs[ti as int].affected_services));
        }
        let mut k: usize = 0;
        while k < svs.len()
            invariant
                k <= svs@.len(),
                svs.deep_view() == spec_affected_services(m, fs[ti as int].affected_services),
                forall|a: int, b: int|
                    0 <= a < b < names@.len() ==> names.deep_view()[a] != names.deep_view()[b],
                forall|j: int|
                    0 <= j < names@.len() ==> target.contains(#[trigger] names.deep_view()[j]),
                forall|t0: int, k0: int|
                    0 <= t0 < ti && 0 <= k0 < spec_affected_services(
                        m,
                        fs[t0].affected_services,
                    ).len() ==> names.deep_view().contains(
                        #[trigger] spec_affected_services(m, fs[t0].affected_services)[k0].name,
                    ),
                forall|k0: int|
                    0 <= k0 < k ==> names.deep_view().contains(
                        #[trigger] spec_affected_services(
                            m,
                            fs[ti as int].affected_services,
                        )[k0].name,
                    ),
            decreases svs@.len() - k,
        {
            let s = svs[k];
            if !contains_name(&names, s.name.as_str()) {
                let ghost names_old = names;
                names.push(s.name.clone());
                proof {
                    assert(names.deep_view() =~= names_old.deep_view().push(s.name@));
                    assert forall|x: Seq<char>| names_old.deep_view().contains(x)
                        implies names.deep_view().contains(x) by {
                        let j = choose|j: int|
                            0 <= j < names_old.deep_view().len() && names_old.deep_view()[j] == x;
                        assert(names.deep_view()[j] == x);
                    }
                    assert(s@ == svs.deep_view()[k as int]);
                    assert(names.deep_view()[names_old@.len() as int] == s.name@);
                    assert(names.deep_view().contains(
                        spec_affected_services(m, fs[ti as int].affected_services)[k as int].name,
                    ));
                    // the pushed name is an affected name: its template is
                    // a loaded one that requires the extension
                    Seq::lemma_filter_pred(templates, reqpred, ti as int);
                    assert(fs.contains(fs[ti as int]));
                    crate::service_config::lemma_filter_subset(templates, reqpred, fs[ti as int]);
                    let tj = choose|tj: int|
                        0 <= tj < templates.len() && templates[tj] == fs[ti as int];
                    assert(spec_affected_services(m, fs[ti as int].affected_services).map_values(
                        |sv: ServiceV| sv.name,
                    )[k as int] == s.name@);
                    assert(template_service_names(m, templates[tj]).contains(s.name@));
                    assert(target.contains(s.name@));
                }
            } else {
                proof {
                    assert(names.deep_view().contains(
                        spec_affected_services(m, fs[ti as int].affected_services)[k as int].name,
                    ));
                }
            }
            k += 1;
        }
        ti += 1;
    }
    proof {
        assert forall|n: Seq<char>| target.contains(n) implies names.deep_view().to_set().contains(
            n,
        ) by {
            let tj = choose|tj: int|
                0 <= tj < templates.len() && requires_extension(#[trigger] templates[tj], extension@)
                    && template_service_names(m, templates[tj]).contains(n);
            Seq::lemma_filter_contains(templates, reqpred, tj);
            let t0 = choose|t0: int| 0 <= t0 < fs.len() && fs[t0] == templates[tj];
            let resolved = spec_affected_services(m, templates[tj].affected_services).map_values(
                |sv: ServiceV| sv.name,
            );
            let k0 = choose|k0: int| 0 <= k0 < resolved.len() && resolved[k0] == n;
            assert(spec_affected_services(m, fs[t0].affected_services)[k0].name == n);
            assert(names.deep_view().contains(n));
        }
        assert forall|n: Seq<char>| names.deep_view().to_set().contains(n) implies target.contains(
            n,
        ) by {
            let j = choose|j: int|
                0 <= j < names.deep_view().len() && names.deep_view()[j] == n;
            assert(target.contains(names.deep_view()[j]));
        }
        assert(names.deep_view().to_set() =~= target);
    }
    names
}

/// For each given settings key, the names of the services affected by
/// changes under it. Fails on the first key that does not address a
/// settings extension.
#[verifier::loop_isolation(false)]
pub fn get_affected_services(
    settings_keys: &Vec<String>,
    service_configuration: &ServiceConfigurations,
) -> (r: Result<Vec<(String, Vec<String>)>, Error>)
    requires
        service_configuration.wf(),
    ensures
        match r {
            Ok(v) => v@.len() == settings_keys@.len() && forall|i: int|
                0 <= i < v@.len() ==> {
                    let toks = spec_split(settings_keys.deep_view()[i], '.');
                    &&& (#[trigger] v@[i]).0@ == settings_keys.deep_view()[i]
                    &&& toks.len() >= 2 && toks[0] == "settings"@
                    &&& v@[i].1.deep_view().to_set() == affected_service_names(
                        service_configuration.templates(),
                        service_configuration.services_map(),
                        toks[1],
                    )
                },
            Err(e) => {
                &&& e matches Error::InvalidKey { .. }
                &&& exists|i: int|
                    0 <= i < settings_keys@.len() && {
                        let toks = spec_split(#[trigger] settings_keys.deep_view()[i], '.');
                        !(toks.len() >= 2 && toks[0] == "settings"@)
                    }
            },
        },
{
    let mut r: Vec<(String, Vec<String>)> = Vec::new();
    let mut i: usize = 0;
    while i < settings_keys.len()
        invariant
            i <= settings_keys@.len(),
            r@.len() == i,
            forall|j: int|
                0 <= j < i ==> {
                    let toks = spec_split(settings_keys.deep_view()[j], '.');
                    &&& (#[trigger] r@[j]).0@ == settings_keys.deep_view()[j]
                    &&& toks.len() >= 2 && toks[0] == "settings"@
                    &&& r@[j].1.deep_view().to_set() == affected_service_names(
                        service_configuration.templates(),
                        service_configuration.services_map(),
                        toks[1],
                    )
                },
        decreases settings_keys@.len() - i,
    {
        let key = &settings_keys[i];
        match requested_settings_extension(key.as_str()) {
            Ok(extension) => {
                let names = affected_services_for_extension(service_configuration, extension);
                r.push((key.clone(), names));
            },
            Err(_) => {
                proof {
                    assert(settings_keys.deep_view()[i as int] == key@);
                }
                return Err(Error::InvalidKey { key: key.clone() });
            },
        }
        i += 1;
    }
    Ok(r)
}

/// A string with every leading occurrence of a non-empty prefix removed.
pub open spec fn spec_trim_prefix(s: Seq<char>, p: Seq<char>) -> Seq<char>
    decreases s.len(),
{
    if p.len() > 0 && is_prefix_of(p, s) && s.len() >= p.len() {
        spec_trim_prefix(s.skip(p.len() as int), p)
    } else {
        s
    }
}

/// `s` with every leading occurrence of `prefix` removed, as
/// prefix-stripping does when turning a query prefix into a field
/// prefix.
#[verifier::loop_isolation(false)]
pub fn trim_prefix_repeated<'a>(s: &'a str, prefix: &str) -> (r: &'a str)
    ensures
        r@ == spec_trim_prefix(s@, prefix@),
{
    let plen = prefix.unicode_len();
    if plen == 0 {
        return s;
    }
    let mut rest = s;
    while str_starts_with(rest, prefix)
        invariant
            plen == prefix@.len(),
            plen > 0,
            spec_trim_prefix(s@, prefix@) == spec_trim_prefix(rest@, prefix@),
        decreases rest@.len(),
    {
        let n = rest.unicode_len();
        let ghost before = rest@;
        rest = rest.substring_char(plen, n);
        proof {
            assert(rest@ =~= before.skip(plen as int));
        }
    }
    rest
}

/// The os fields whose names start with the filter prefix, in order,
/// their values copied.
#[verifier::loop_isolation(false)]
pub fn filter_fields_by_prefix(
    fields: &Vec<(String, crate::value::Value)>,
    field_prefix: &str,
) -> (r: Vec<(String, crate::value::Value)>)
    ensures
        pairs_view(r@) == pairs_view(fields@).filter(
            |f: (Seq<char>, crate::value::ValueModel)| is_prefix_of(field_prefix@, f.0),
        ),
{
    let ghost pred = |f: (Seq<char>, crate::value::ValueModel)| is_prefix_of(field_prefix@, f.0);
    let ghost all = pairs_view(fields@);
    let mut r: Vec<(String, crate::value::Value)> = Vec::new();
    let mut i: usize = 0;
    proof {
        assert(all.take(0) =~= Seq::<(Seq<char>, crate::value::ValueModel)>::empty());
        lemma_filter_empty::<(Seq<char>, crate::value::ValueModel)>(pred);
        assert(pairs_view(r@) =~= all.take(0).filter(pred));
    }
    while i < fields.len()
        invariant
            i <= fields@.len(),
            all == pairs_view(fields@),
            pairs_view(r@) == all.take(i as int).filter(pred),
        decreases fields@.len() - i,
    {
        proof {
            assert(all.take(i as int + 1) =~= all.take(i as int).push(all[i as int]));
            lemma_filter_push(all.take(i as int), all[i as int], pred);
        }
        if str_starts_with(fields[i].0.as_str(), field_prefix) {
            let name = fields[i].0.clone();
            let value = fields[i].1.duplicate();
            let ghost r_old = r;
            r.push((name, value));
            proof {
                assert(pairs_view(r@) =~= pairs_view(r_old@).push(all[i as int]));
            }
        }
        i += 1;
    }
    proof {
        assert(all.take(i as int) =~= all);
    }
    r
}

} // verus!
