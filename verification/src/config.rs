//! Settings, as they are read from the environment.
use crate::text;
use crate::text::{read_u16, same_text_ignoring_case};
use vstd::prelude::*;
use vstd::string::*;

verus! {

/// The port to listen on where none is set.
pub const DEFAULT_PORT: u16 = 8080;

/// The cluster's DNS domain where none is set.
pub const DEFAULT_CLUSTER_DOMAIN: &'static str = "cluster.local";

/// The log filter where none is set.
pub const DEFAULT_LOG_FILTER: &'static str = "info";

/// The port that a setting asks for, and whether it is no port number.
pub open spec fn port_of(setting: Option<Seq<char>>) -> (u16, bool) {
    match setting {
        None => (DEFAULT_PORT, false),
        Some(value) => match text::u16_of(value) {
            Some(port) => (port, false),
            None => (DEFAULT_PORT, true),
        },
    }
}

/// The domain that a setting asks for.
pub open spec fn domain_of(setting: Option<Seq<char>>) -> Seq<char> {
    match setting {
        Some(value) => value,
        None => DEFAULT_CLUSTER_DOMAIN@,
    }
}

/// Whether a setting asks for JSON.
pub open spec fn asks_for_json(setting: Option<Seq<char>>) -> bool {
    match setting {
        Some(value) => text::equal_ignoring_case(value, "json"@),
        None => false,
    }
}

/// The port to listen on, and whether what was set is no port number.
pub fn listen_port(setting: Option<String>) -> (port: (u16, bool))
    ensures
        port == (match setting {
            None => (DEFAULT_PORT, false),
            Some(value) => match text::u16_of(value@) {
                Some(port) => (port, false),
                None => (DEFAULT_PORT, true),
            },
        }),
        port == port_of(text::opt_text(setting)),
{
    match setting {
        None => (DEFAULT_PORT, false),
        Some(value) => match read_u16(value.as_str()) {
            Some(port) => (port, false),
            None => (DEFAULT_PORT, true),
        },
    }
}

/// The cluster's DNS domain.
pub fn cluster_domain(setting: Option<String>) -> (domain: String)
    ensures
        domain@ == (match setting {
            Some(value) => value@,
            None => DEFAULT_CLUSTER_DOMAIN@,
        }),
        domain@ == domain_of(text::opt_text(setting)),
{
    match setting {
        Some(value) => value,
        None => DEFAULT_CLUSTER_DOMAIN.to_owned(),
    }
}

/// Whether logs are written as JSON.
pub fn wants_json_logs(setting: Option<String>) -> (json: bool)
    ensures
        json == (match setting {
            Some(value) => text::equal_ignoring_case(value@, "json"@),
            None => false,
        }),
        json == asks_for_json(text::opt_text(setting)),
{
    match setting {
        Some(value) => same_text_ignoring_case(value.as_str(), "json"),
        None => false,
    }
}

/// Every port number that is set is listened on, and only what is no number
/// falls back to 8080; what is not set does so without complaint.
pub proof fn law_port(value: Seq<char>, n: u16)
    ensures
        port_of(None) == (8080u16, false),
        port_of(Some(text::decimal(n as nat))) == (n, false),
        text::u16_of(value) is None ==> port_of(Some(value)) == (8080u16, true),
        text::u16_of(value) matches Some(port) ==> port_of(Some(value)) == (port, false),
{
    text::law_decimal(n as nat);
    text::law_numbers_are_read(n as nat, text::decimal(n as nat));
}

/// The domain is the one that is set, letter for letter, and `cluster.local`
/// where none is.
pub proof fn law_domain(value: Seq<char>)
    ensures
        domain_of(Some(value)) == value,
        domain_of(None) == "cluster.local"@,
{
}

/// Logs are JSON exactly where `json` is set, each letter in either case.
pub proof fn law_json_logs(value: Seq<char>)
    ensures
        !asks_for_json(None),
        asks_for_json(Some(value)) <==> {
            &&& value.len() == 4
            &&& value[0] == 'j' || value[0] == 'J'
            &&& value[1] == 's' || value[1] == 'S'
            &&& value[2] == 'o' || value[2] == 'O'
            &&& value[3] == 'n' || value[3] == 'N'
        },
{
    reveal_strlit("json");
    let json = "json"@;
    text::law_case_is_ascii_only(value, json);
    if text::equal_ignoring_case(value, json) {
        assert(value[0] == json[0] || value[0] as int + 32 == json[0] as int);
        assert(value[1] == json[1] || value[1] as int + 32 == json[1] as int);
        assert(value[2] == json[2] || value[2] as int + 32 == json[2] as int);
        assert(value[3] == json[3] || value[3] as int + 32 == json[3] as int);
    } else if value.len() == 4 {
        let i = choose|i: int|
            0 <= i < 4 && !({
                ||| (#[trigger] value[i]) == json[i]
                ||| ('A' <= value[i] && value[i] <= 'Z' && value[i] as int + 32 == json[i] as int)
                ||| ('A' <= json[i] && json[i] <= 'Z' && json[i] as int + 32 == value[i] as int)
            });
        assert(i == 0 || i == 1 || i == 2 || i == 3);
    }
}

} // verus!
