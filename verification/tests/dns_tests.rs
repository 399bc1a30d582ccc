use settings_core::dns::{resolv_conf_text, resolved_dropin_text, DnsSettings};

#[test]
fn lease_fills_only_what_the_config_left_unset() {
    let mut settings = DnsSettings::default();
    settings.merge_lease(
        Some(vec!["192.168.0.2".to_string()]),
        Some(vec!["us-west-2.compute.internal".to_string()]),
    );
    assert_eq!(settings.nameservers, Some(vec!["192.168.0.2".to_string()]));
    assert_eq!(settings.search, Some(vec!["us-west-2.compute.internal".to_string()]));
    assert!(settings.has_name_servers());
    assert!(settings.has_search_domains());

    // configured values win over the lease
    let mut configured = DnsSettings {
        nameservers: Some(vec!["1.1.1.1".to_string()]),
        search: None,
    };
    configured.merge_lease(Some(vec!["2.2.2.2".to_string()]), Some(vec!["lan".to_string()]));
    assert_eq!(configured.nameservers, Some(vec!["1.1.1.1".to_string()]));
    assert_eq!(configured.search, Some(vec!["lan".to_string()]));
}

#[test]
fn resolv_conf_lists_search_then_nameservers() {
    let search = Some(vec!["us-west-2.compute.internal".to_string()]);
    let servers = vec!["192.168.0.2".to_string()];
    let text = resolv_conf_text(&search, &servers);
    assert_eq!(text, "search us-west-2.compute.internal\nnameserver 192.168.0.2\n");
}

#[test]
fn resolv_conf_keeps_the_given_server_order() {
    let search = Some(vec!["us-west-2.compute.internal".to_string()]);
    let servers = vec!["192.168.0.2".to_string(), "1.2.3.4".to_string()];
    let text = resolv_conf_text(&search, &servers);
    assert_eq!(
        text,
        "search us-west-2.compute.internal\nnameserver 192.168.0.2\nnameserver 1.2.3.4\n"
    );
}

#[test]
fn resolv_conf_without_search_has_no_search_line() {
    let text = resolv_conf_text(&None, &vec!["1.2.3.4".to_string()]);
    assert_eq!(text, "nameserver 1.2.3.4\n");
}

#[test]
fn resolved_dropin_lists_dns_and_domains() {
    let text = resolved_dropin_text(
        &vec!["1.2.3.4".to_string()],
        &vec!["us-west-2.compute.internal".to_string()],
    );
    assert_eq!(text, "[Resolve]\nDNS=1.2.3.4\nDomains=us-west-2.compute.internal\n");
}

#[test]
fn resolved_dropin_space_separates_multiple_entries() {
    let text = resolved_dropin_text(
        &vec!["1.2.3.4".to_string(), "2.3.4.5".to_string()],
        &vec!["us-west-2.compute.internal".to_string(), "foo.bar.baz".to_string()],
    );
    assert_eq!(
        text,
        "[Resolve]\nDNS=1.2.3.4 2.3.4.5\nDomains=us-west-2.compute.internal foo.bar.baz\n"
    );
}
