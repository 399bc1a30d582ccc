use settings_core::controller::{
    check_prefix, comma_separated, commit_transaction, delete_transaction, get_affected_services,
    get_configuration_files, get_configuration_files_names, get_configuration_files_prefix,
    get_services, get_services_names, get_services_prefix, get_transaction, list_transactions,
    requested_settings_extension, serialize_configuration_files, serialize_service,
    transaction_name, Error,
};
use settings_core::datastore::{Committed, DataStore};
use settings_core::memory::MemoryDataStore;
use settings_core::service::Service;
use settings_core::service_config::ServiceConfigurations;
use settings_core::template::{ConfigTemplate, RenderDestination};
use settings_core::value::Value;

fn graph() -> ServiceConfigurations {
    let svc = Service {
        filepath: "/share/services/web.service".to_string(),
        name: "web".to_string(),
        restart_commands: vec!["systemctl".to_string(), "restart".to_string()],
    };
    let tpl = ConfigTemplate {
        name: "web-config".to_string(),
        template_filepath: "/share/templates/web.template".to_string(),
        extension_requirements: vec!["network".to_string()],
        affected_services: vec!["/share/services/web.service".to_string()],
        render_destinations: vec![RenderDestination {
            path: "/etc/web.conf".to_string(),
            mode: "0644".to_string(),
            user: None,
            group: None,
        }],
    };
    ServiceConfigurations::from_parts(vec![svc], vec![tpl])
}

#[test]
fn check_prefix_picks_the_more_specific_side() {
    // a short prefix widens to the expected one
    assert_eq!(check_prefix("se", "settings."), Some("settings."));
    // a longer prefix narrows the query
    assert_eq!(check_prefix("settings.motd", "settings."), Some("settings.motd"));
    // no overlap, no data
    assert_eq!(check_prefix("services.", "settings."), None);
}

#[test]
fn requested_settings_extension_takes_the_second_field() {
    assert_eq!(requested_settings_extension("settings.foo.bar").unwrap(), "foo");
    assert_eq!(requested_settings_extension("settings.motd").unwrap(), "motd");
    // a trailing separator yields an empty extension name, as splitting does
    assert_eq!(requested_settings_extension("settings.").unwrap(), "");
    assert!(matches!(
        requested_settings_extension("services.foo"),
        Err(Error::InvalidKey { .. })
    ));
    assert!(matches!(requested_settings_extension("settings"), Err(Error::InvalidKey { .. })));
}

#[test]
fn comma_separated_splits_and_rejects_empty_input() {
    assert_eq!(
        comma_separated("keys", "a,b,c").unwrap(),
        vec!["a".to_string(), "b".to_string(), "c".to_string()]
    );
    assert!(matches!(comma_separated("keys", ""), Err(Error::EmptyInput { .. })));
}

#[test]
fn transaction_name_defaults() {
    let named = "mine".to_string();
    assert_eq!(transaction_name(Some(&named)), "mine");
    assert_eq!(transaction_name(None), "default");
}

#[test]
fn services_payload_links_templates_to_services() {
    let sc = graph();
    let services = sc.services();
    let shape = serialize_service(services[0], &sc);
    assert_eq!(shape.configuration_files, vec!["web-config".to_string()]);
    assert_eq!(shape.restart_commands, vec!["systemctl".to_string(), "restart".to_string()]);

    let payload = get_services(&sc);
    assert_eq!(payload.len(), 1);
    assert_eq!(payload[0].0, "web");

    assert_eq!(get_services_prefix(&sc, "we").len(), 1);
    assert_eq!(get_services_prefix(&sc, "zzz").len(), 0);
    assert_eq!(get_services_names(&sc, &vec!["web".to_string()]).len(), 1);
    assert_eq!(get_services_names(&sc, &vec!["nope".to_string()]).len(), 0);
}

#[test]
fn configuration_files_payload_serves_each_destination() {
    let sc = graph();
    let templates = sc.configuration_templates();
    let files = serialize_configuration_files(templates[0]);
    assert_eq!(files.len(), 1);
    assert_eq!(files[0].path, "/etc/web.conf");
    assert_eq!(files[0].template_path, "/share/templates/web.template");
    assert_eq!(files[0].mode, Some("0644".to_string()));

    let payload = get_configuration_files(&sc);
    assert_eq!(payload.len(), 1);
    assert_eq!(payload[0].0, "web-config");

    assert_eq!(get_configuration_files_prefix(&sc, "web").len(), 1);
    assert_eq!(get_configuration_files_prefix(&sc, "zzz").len(), 0);
    assert_eq!(get_configuration_files_names(&sc, &vec!["web-config".to_string()]).len(), 1);
    assert_eq!(get_configuration_files_names(&sc, &vec!["nope".to_string()]).len(), 0);
}

#[test]
fn affected_services_are_reported_per_settings_key() {
    let sc = graph();
    let keys = vec!["settings.network.hostname".to_string()];
    let affected = get_affected_services(&keys, &sc).unwrap();
    assert_eq!(affected.len(), 1);
    assert_eq!(affected[0].0, "settings.network.hostname");
    assert_eq!(affected[0].1, vec!["web".to_string()]);

    let unrelated = vec!["settings.unrelated.key".to_string()];
    let nothing = get_affected_services(&unrelated, &sc).unwrap();
    assert_eq!(nothing[0].1, Vec::<String>::new());

    let bad = vec!["os.version".to_string()];
    assert!(matches!(get_affected_services(&bad, &sc), Err(Error::InvalidKey { .. })));
}

#[test]
fn store_delegations_carry_the_results_through() {
    let mut ds = MemoryDataStore::new();
    let values = vec![("v1".to_string(), Value::Bool(true))];
    ds.set("ext", &values, &Committed::Pending { tx: "tx".to_string() }).unwrap();

    let open = list_transactions(&ds).unwrap();
    assert_eq!(open, vec!["tx".to_string()]);

    let staged = get_transaction(&ds, "tx").unwrap();
    assert_eq!(staged.len(), 1);
    assert_eq!(staged[0].0, "ext");

    // a never-written transaction reads as empty
    assert!(get_transaction(&ds, "other").unwrap().is_empty());

    let committed = commit_transaction(&mut ds, "tx").unwrap();
    assert_eq!(committed.len(), 1);
    assert_eq!(committed[0].0, "ext");

    let deleted = delete_transaction(&mut ds, "tx").unwrap();
    assert!(deleted.is_empty());
}
