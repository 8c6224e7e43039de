//! WebFinger aggregation for one domain: which backends answer, what each of
//! them is asked, and how their answers become one document.
pub mod backend;
pub mod config;
pub mod error;
pub mod http;
pub mod k8s;
pub mod members;
pub mod query;
pub mod rows;
pub mod text;
pub mod url_text;
pub mod watch;
pub mod webfinger;
