//! The QuarkOpen mount: Quark drive through its open API, with OAuth state in the options.

use vstd::prelude::*;
use crate::mounts::{MountConfig, option_of, option_string};
use crate::text::{append, trim, trim_exec};

verus! {

/// A QuarkOpen mount's settings.
pub struct QuarkOpenConfig {
    pub access_token: String,
    pub refresh_token: String,
    pub app_id: String,
    pub sign_key: String,
    pub refresh_url: String,
    /// The Quark folder id of the mount's root; `0` is the account's root.
    pub root_fid: String,
}

pub open spec fn or_default(o: Option<Seq<char>>, d: Seq<char>) -> Seq<char> {
    match o {
        Some(s) => s,
        None => d,
    }
}

/// `from_mount`: `refresh_token` is required; the tokens and keys default to empty, the refresh
/// endpoint to FnNAS's, the root folder to `0`.
pub fn from_mount(mount: &MountConfig) -> (res: Option<QuarkOpenConfig>)
    ensures
        ({
            let o = mount.options_view();
            match res {
                None => option_of(o, "refresh_token"@) is None,
                Some(c) => Some(c.refresh_token@) == option_of(o, "refresh_token"@)
                    && c.access_token@ == or_default(option_of(o, "access_token"@), Seq::empty())
                    && c.app_id@ == or_default(option_of(o, "app_id"@), Seq::empty()) && c.sign_key@
                    == or_default(option_of(o, "sign_key"@), Seq::empty()) && c.refresh_url@
                    == or_default(
                    option_of(o, "refresh_url"@),
                    "https://oauth.fnnas.com/api/v1/oauth/refreshToken"@,
                ) && c.root_fid@ == or_default(option_of(o, "root_fid"@), "0"@),
            }
        }),
{
    let access_token = match option_string(mount, "access_token") {
        Some(v) => v,
        None => String::new(),
    };
    let refresh_token = match option_string(mount, "refresh_token") {
        Some(v) => v,
        None => return None,
    };
    let app_id = match option_string(mount, "app_id") {
        Some(v) => v,
        None => String::new(),
    };
    let sign_key = match option_string(mount, "sign_key") {
        Some(v) => v,
        None => String::new(),
    };
    let refresh_url = match option_string(mount, "refresh_url") {
        Some(v) => v,
        None => "https://oauth.fnnas.com/api/v1/oauth/refreshToken".to_owned(),
    };
    let root_fid = match option_string(mount, "root_fid") {
        Some(v) => v,
        None => "0".to_owned(),
    };
    Some(QuarkOpenConfig { access_token, refresh_token, app_id, sign_key, refresh_url, root_fid })
}

/// The check that `client` makes before building the client: a blank refresh token is refused
/// with `quark_open mount {path} needs options.refresh_token`.
pub fn check_client(config: &QuarkOpenConfig, path: &str) -> (res: Result<(), String>)
    ensures
        trim(config.refresh_token@).len() == 0 ==> (res matches Err(m) && m@
            == "quark_open mount "@ + path@ + " needs options.refresh_token"@),
        trim(config.refresh_token@).len() != 0 ==> res is Ok,
{
    let t = trim_exec(config.refresh_token.as_str());
    if t.as_str().is_empty() {
        let mut m = String::new();
        append(&mut m, "quark_open mount ");
        append(&mut m, path);
        append(&mut m, " needs options.refresh_token");
        assert(m@ =~= "quark_open mount "@ + path@ + " needs options.refresh_token"@);
        Err(m)
    } else {
        Ok(())
    }
}

} // verus!
