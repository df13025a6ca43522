//! The S3 driver: a path-style object store with explicit credentials.

use vstd::prelude::*;
use crate::mounts::{MountConfig, option_of, option_string};

verus! {

/// An S3 mount's settings.
pub struct S3Config {
    pub endpoint: String,
    pub bucket: String,
    pub region: String,
    pub access_key: String,
    pub secret_key: String,
    pub session_token: Option<String>,
    pub proxy: Option<String>,
}

pub open spec fn opt_view(o: Option<String>) -> Option<Seq<char>> {
    match o {
        Some(s) => Some(s@),
        None => None,
    }
}

/// `from_mount`: `endpoint`, `bucket`, `access_key` and `secret_key` are required; `region`
/// defaults to `us-east-1`; `session_token` and `proxy` are optional.
pub fn from_mount(mount: &MountConfig) -> (res: Option<S3Config>)
    ensures
        ({
            let o = mount.options_view();
            let required = option_of(o, "endpoint"@) is Some && option_of(o, "bucket"@) is Some
                && option_of(o, "access_key"@) is Some && option_of(o, "secret_key"@) is Some;
            match res {
                None => !required,
                Some(c) => required && Some(c.endpoint@) == option_of(o, "endpoint"@) && Some(
                    c.bucket@,
                ) == option_of(o, "bucket"@) && c.region@ == (match option_of(o, "region"@) {
                    Some(r) => r,
                    None => "us-east-1"@,
                }) && Some(c.access_key@) == option_of(o, "access_key"@) && Some(c.secret_key@)
                    == option_of(o, "secret_key"@) && opt_view(c.session_token) == option_of(
                    o,
                    "session_token"@,
                ) && opt_view(c.proxy) == option_of(o, "proxy"@),
            }
        }),
{
    let endpoint = match option_string(mount, "endpoint") {
        Some(v) => v,
        None => return None,
    };
    let bucket = match option_string(mount, "bucket") {
        Some(v) => v,
        None => return None,
    };
    let region = match option_string(mount, "region") {
        Some(v) => v,
        None => "us-east-1".to_owned(),
    };
    let access_key = match option_string(mount, "access_key") {
        Some(v) => v,
        None => return None,
    };
    let secret_key = match option_string(mount, "secret_key") {
        Some(v) => v,
        None => return None,
    };
    let session_token = option_string(mount, "session_token");
    let proxy = option_string(mount, "proxy");
    Some(S3Config { endpoint, bucket, region, access_key, secret_key, session_token, proxy })
}

} // verus!
