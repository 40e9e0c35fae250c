use marked_yaml::telemetry::{
    apollo_graph_ref_env_str, apollo_key_env_str, client_name_header_default,
    client_name_header_default_str, client_version_header_default,
    client_version_header_default_str, Config,
};

#[test]
fn schema_default_strings_name_the_env_vars() {
    assert_eq!(apollo_key_env_str(), Some("${APOLLO_KEY}".to_string()));
    assert_eq!(
        apollo_graph_ref_env_str(),
        Some("${APOLLO_GRAPH_REF}".to_string())
    );
}

#[test]
fn header_defaults() {
    assert_eq!(client_name_header_default_str(), "apollographql-client-name");
    assert_eq!(
        client_version_header_default_str(),
        "apollographql-client-version"
    );
    assert_eq!(client_name_header_default(), "apollographql-client-name");
    assert_eq!(
        client_version_header_default(),
        "apollographql-client-version"
    );
}

#[test]
fn config_default_has_no_credentials() {
    let config = Config::default();
    assert!(config.endpoint.is_none());
    assert!(config.apollo_key.is_none());
    assert!(config.apollo_graph_ref.is_none());
    assert_eq!(config.client_name_header, "apollographql-client-name");
    assert_eq!(config.client_version_header, "apollographql-client-version");
}
