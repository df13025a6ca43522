//! The browser side: telling browsers from tools, and the file browser page.

use vstd::prelude::*;
use crate::ext::{json_string, json_string_of};
use crate::text::{
    ascii_lower, ascii_lower_exec, contains, contains_exec, replace_all, replace_exec, split,
    split_exec, starts_with, starts_with_exec, trim, trim_exec, views,
};

verus! {

/// The user agents of tools, which get S3 answers even when they accept HTML.
pub open spec fn tools() -> Seq<Seq<char>> {
    seq![
        "curl"@,
        "wget"@,
        "aws-cli"@,
        "boto3"@,
        "restic"@,
        "rclone"@,
        "go-http-client"@,
        "python-requests"@,
    ]
}

/// Some `,`-separated item of `accept`, trimmed, starts with `text/html`.
pub open spec fn accepts_html(accept: Seq<char>) -> bool {
    exists|i: int|
        0 <= i < split(accept, ',').len() && starts_with(
            trim(#[trigger] split(accept, ',')[i]),
            "text/html"@,
        )
}

/// The lower-cased user agent names a tool.
pub open spec fn is_tool(ua: Seq<char>) -> bool {
    exists|i: int| 0 <= i < tools().len() && contains(ascii_lower(ua), #[trigger] tools()[i])
}

pub open spec fn or_empty(o: Option<&str>) -> Seq<char> {
    match o {
        Some(s) => s@,
        None => Seq::empty(),
    }
}

fn accepts_html_exec(accept: &str) -> (res: bool)
    ensures
        res == accepts_html(accept@),
{
    let parts = split_exec(accept, ',');
    let mut i: usize = 0;
    while i < parts.len()
        invariant
            i <= parts.len(),
            views(parts@) == split(accept@, ','),
            forall|j: int| 0 <= j < i ==> !starts_with(trim(#[trigger] split(accept@, ',')[j]), "text/html"@),
        decreases parts.len() - i,
    {
        assert(views(parts@)[i as int] == parts@[i as int]@);
        let t = trim_exec(parts[i].as_str());
        if starts_with_exec(t.as_str(), "text/html") {
            return true;
        }
        i += 1;
    }
    false
}

/// `wants_html`: a browser asks for the file browser page: it accepts HTML and is not a known
/// tool. Headers that are absent (or not text) count as empty.
pub fn wants_html(accept: Option<&str>, user_agent: Option<&str>) -> (res: bool)
    ensures
        res == (accepts_html(or_empty(accept)) && !is_tool(or_empty(user_agent))),
{
    let a = match accept {
        Some(s) => s,
        None => "",
    };
    proof {
        reveal_strlit("");
        assert(a@ == or_empty(accept));
    }
    if !accepts_html_exec(a) {
        return false;
    }
    let u = match user_agent {
        Some(s) => s,
        None => "",
    };
    assert(u@ == or_empty(user_agent));
    let ua = ascii_lower_exec(u);
    let list: [&str; 8] = [
        "curl",
        "wget",
        "aws-cli",
        "boto3",
        "restic",
        "rclone",
        "go-http-client",
        "python-requests",
    ];
    let mut i: usize = 0;
    while i < 8
        invariant
            i <= 8,
            ua@ == ascii_lower(or_empty(user_agent)),
            list@ == seq![
                "curl",
                "wget",
                "aws-cli",
                "boto3",
                "restic",
                "rclone",
                "go-http-client",
                "python-requests",
            ],
            forall|j: int| 0 <= j < i ==> !contains(ascii_lower(or_empty(user_agent)), #[trigger] tools()[j]),
        decreases 8 - i,
    {
        let t = list[i];
        assert(t@ == tools()[i as int]);
        if contains_exec(ua.as_str(), t) {
            return false;
        }
        i += 1;
    }
    true
}

pub open spec fn placeholder() -> Seq<char> {
    "__CONFIG_PATH_JSON__"@
}

/// The page with the configuration path put in: every `__CONFIG_PATH_JSON__` in `template`
/// replaced by the path as a JSON string.
pub open spec fn browser_page(template: Seq<char>, config_path: Seq<char>) -> Seq<char> {
    replace_all(template, placeholder(), json_string(config_path))
}

/// `file_browser_html`, with the page's template given.
pub fn file_browser_html(template: &str, config_path: &str) -> (res: String)
    ensures
        res@ == browser_page(template@, config_path@),
{
    let json = match json_string_of(config_path) {
        Some(j) => j,
        None => "\"/api/config.yaml\"".to_owned(),
    };
    proof {
        reveal_strlit("__CONFIG_PATH_JSON__");
    }
    replace_exec(template, "__CONFIG_PATH_JSON__", json.as_str())
}

} // verus!
