use settings_core::service::Service;
use settings_core::service_config::ServiceConfigurations;
use settings_core::template::{ConfigTemplate, RenderDestination};

fn sample_service() -> Service {
    Service {
        filepath: "/share/services/sample.service".to_string(),
        name: "sample".to_string(),
        restart_commands: vec!["restart".to_string(), "me".to_string()],
    }
}

fn sample_template() -> ConfigTemplate {
    ConfigTemplate {
        name: "sample-config".to_string(),
        template_filepath: "/share/templates/sample.template".to_string(),
        extension_requirements: vec!["sample-extension".to_string()],
        affected_services: vec!["/share/services/sample.service".to_string()],
        render_destinations: vec![RenderDestination {
            path: "/etc/sample.conf".to_string(),
            mode: "0644".to_string(),
            user: None,
            group: None,
        }],
    }
}

#[test]
fn one_service_one_template_round_trip() {
    let sc = ServiceConfigurations::from_parts(vec![sample_service()], vec![sample_template()]);

    let all_services = sc.services();
    assert_eq!(all_services.len(), 1);
    assert_eq!(all_services[0].name, "sample");
    assert_eq!(all_services[0].restart_commands, ["restart", "me"]);

    let all_configs = sc.configuration_templates();
    assert_eq!(all_configs.len(), 1);

    let affected_configs = sc.configurations_affected_by_setting("sample-extension");
    assert_eq!(affected_configs.len(), 1);
    assert_eq!(affected_configs[0], all_configs[0]);
    assert_eq!(affected_configs[0].render_destinations[0].path, "/etc/sample.conf");

    let affected_services = sc.services_affected_by_config_template(affected_configs[0]);
    assert_eq!(affected_services.len(), 1);
    assert_eq!(affected_services[0], all_services[0]);

    assert!(sc.configurations_affected_by_setting("no-such-extension").is_empty());
}

fn multi_graph() -> ServiceConfigurations {
    let s1 = Service {
        filepath: "/share/services/sample1.service".to_string(),
        name: "sample1".to_string(),
        restart_commands: vec!["restart".to_string(), "sample1".to_string()],
    };
    let s2 = Service {
        filepath: "/share/services/sample2.service".to_string(),
        name: "sample2".to_string(),
        restart_commands: vec!["restart".to_string(), "sample2".to_string()],
    };
    let t1 = ConfigTemplate {
        name: "sample1-config".to_string(),
        template_filepath: "/share/templates/sample1.template".to_string(),
        extension_requirements: vec!["std".to_string(), "ext1".to_string()],
        affected_services: vec![
            "/share/services/sample1.service".to_string(),
            "/share/services/sample2.service".to_string(),
        ],
        render_destinations: vec![
            RenderDestination {
                path: "/etc/sample1.conf".to_string(),
                mode: "0644".to_string(),
                user: None,
                group: None,
            },
            RenderDestination {
                path: "/etc/another-path.conf".to_string(),
                mode: "0700".to_string(),
                user: Some("user".to_string()),
                group: Some("group".to_string()),
            },
        ],
    };
    let t2 = ConfigTemplate {
        name: "sample2-config".to_string(),
        template_filepath: "/share/templates/sample2.template".to_string(),
        extension_requirements: vec!["std".to_string(), "ext2".to_string()],
        affected_services: vec!["/share/services/sample1.service".to_string()],
        render_destinations: vec![RenderDestination {
            path: "/etc/sample2.conf".to_string(),
            mode: "0644".to_string(),
            user: None,
            group: None,
        }],
    };
    ServiceConfigurations::from_parts(vec![s1, s2], vec![t1, t2])
}

#[test]
fn queries_over_two_services_and_two_templates() {
    let sc = multi_graph();

    // a requirement shared by both templates matches both
    let both = sc.configurations_affected_by_setting("std");
    assert_eq!(both.len(), 2);

    // each private requirement matches its one template
    let only1 = sc.configurations_affected_by_setting("ext1");
    assert_eq!(only1.len(), 1);
    assert_eq!(only1[0].template_filepath, "/share/templates/sample1.template");

    let only2 = sc.configurations_affected_by_setting("ext2");
    assert_eq!(only2.len(), 1);
    assert_eq!(only2[0].template_filepath, "/share/templates/sample2.template");

    // the first template affects both services, the second only one
    let affected1 = sc.services_affected_by_config_template(only1[0]);
    assert_eq!(affected1.len(), 2);
    let affected2 = sc.services_affected_by_config_template(only2[0]);
    assert_eq!(affected2.len(), 1);
    assert_eq!(affected2[0].name, "sample1");

    assert!(sc.configurations_affected_by_setting("no-such-extension").is_empty());
}

#[test]
fn the_impact_queries_are_mutual_inverses() {
    let sc = multi_graph();
    let services = sc.services();
    let templates = sc.configuration_templates();
    for t in &templates {
        let affected = sc.services_affected_by_config_template(t);
        for s in &services {
            let forward = affected.contains(s);
            let backward = sc.config_templates_for_service(s).contains(t);
            assert_eq!(forward, backward);
        }
    }
}

#[test]
fn unknown_affected_service_paths_are_dropped() {
    let t = ConfigTemplate {
        name: "stale".to_string(),
        template_filepath: "/share/templates/stale.template".to_string(),
        extension_requirements: vec!["std".to_string()],
        affected_services: vec!["/share/services/gone.service".to_string()],
        render_destinations: vec![],
    };
    let sc = ServiceConfigurations::from_parts(vec![sample_service()], vec![t]);
    let ts = sc.configurations_affected_by_setting("std");
    assert_eq!(ts.len(), 1);
    assert!(sc.services_affected_by_config_template(ts[0]).is_empty());
}

#[test]
fn a_later_service_with_the_same_path_replaces_an_earlier_one() {
    let mut second = sample_service();
    second.name = "renamed".to_string();
    let sc = ServiceConfigurations::from_parts(vec![sample_service(), second], vec![]);
    let services = sc.services();
    assert_eq!(services.len(), 1);
    assert_eq!(services[0].name, "renamed");
}
