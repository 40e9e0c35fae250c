//! Telemetry configuration: a plain record with the default values its
//! schema advertises. The optional credentials default from named
//! environment variables; reading those variables, like deserializing the
//! record itself, happens outside this library.

use vstd::prelude::*;

verus! {

use vstd::string::StringExecFns;

/// Telemetry options: an optional endpoint, optional credentials, and the
/// two header names client identity is read from.
#[derive(Debug)]
pub struct Config {
    pub endpoint: Option<String>,
    pub apollo_key: Option<String>,
    pub apollo_graph_ref: Option<String>,
    pub client_name_header: String,
    pub client_version_header: String,
}

/// The schema's default text for the key: the environment variable it is
/// read from when absent.
pub fn apollo_key_env_str() -> (r: Option<String>)
    ensures
        r matches Some(s) && s@ == "${APOLLO_KEY}"@,
{
    Some(String::from_str("${APOLLO_KEY}"))
}

/// The schema's default text for the graph reference: the environment
/// variable it is read from when absent.
pub fn apollo_graph_ref_env_str() -> (r: Option<String>)
    ensures
        r matches Some(s) && s@ == "${APOLLO_GRAPH_REF}"@,
{
    Some(String::from_str("${APOLLO_GRAPH_REF}"))
}

/// The default header carrying the client's name.
pub fn client_name_header_default_str() -> (r: &'static str)
    ensures
        r@ == "apollographql-client-name"@,
{
    "apollographql-client-name"
}

/// The default header carrying the client's version.
pub fn client_version_header_default_str() -> (r: &'static str)
    ensures
        r@ == "apollographql-client-version"@,
{
    "apollographql-client-version"
}

/// The default client-name header as an owned header name.
pub fn client_name_header_default() -> (r: String)
    ensures
        r@ == "apollographql-client-name"@,
{
    String::from_str(client_name_header_default_str())
}

/// The default client-version header as an owned header name.
pub fn client_version_header_default() -> (r: String)
    ensures
        r@ == "apollographql-client-version"@,
{
    String::from_str(client_version_header_default_str())
}

impl Default for Config {
    /// No endpoint and no credentials; the header names take their fixed
    /// defaults.
    fn default() -> (r: Config)
        ensures
            r.endpoint is None,
            r.apollo_key is None,
            r.apollo_graph_ref is None,
            r.client_name_header@ == "apollographql-client-name"@,
            r.client_version_header@ == "apollographql-client-version"@,
    {
        Config {
            endpoint: None,
            apollo_key: None,
            apollo_graph_ref: None,
            client_name_header: client_name_header_default(),
            client_version_header: client_version_header_default(),
        }
    }
}

} // verus!
