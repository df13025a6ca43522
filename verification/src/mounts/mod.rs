//! Mounts: the configuration of one backend in the path tree, and how its options are read.

pub mod quark_open;
pub mod system_config;

use vstd::prelude::*;

verus! {

/// One entry of `mounts` in the configuration.
pub struct MountConfig {
    /// Where the backend appears in the tree.
    pub path: String,
    /// The backend's own folder that `path` shows.
    pub root_path: String,
    /// The driver's text options, in order.
    pub options: Vec<(String, String)>,
}

/// The value of the first option named `key`.
pub open spec fn option_of(options: Seq<(Seq<char>, Seq<char>)>, key: Seq<char>) -> Option<Seq<char>>
    decreases options.len(),
{
    if options.len() == 0 {
        None
    } else if options[0].0 == key {
        Some(options[0].1)
    } else {
        option_of(options.drop_first(), key)
    }
}

impl MountConfig {
    pub open spec fn options_view(&self) -> Seq<(Seq<char>, Seq<char>)> {
        self.options@.map_values(|p: (String, String)| (p.0@, p.1@))
    }
}

/// The text option `key` of a mount (`options::string`).
pub fn option_string(mount: &MountConfig, key: &str) -> (res: Option<String>)
    ensures
        match res {
            Some(v) => option_of(mount.options_view(), key@) == Some(v@),
            None => option_of(mount.options_view(), key@) is None,
        },
{
    let mut i: usize = mount.options.len();
    let mut found: Option<String> = None;
    let ghost ov = mount.options_view();
    assert(ov.skip(ov.len() as int) =~= Seq::<(Seq<char>, Seq<char>)>::empty());
    while i > 0
        invariant
            i <= mount.options.len(),
            ov == mount.options_view(),
            match found {
                Some(v) => option_of(ov.skip(i as int), key@) == Some(v@),
                None => option_of(ov.skip(i as int), key@) is None,
            },
        decreases i,
    {
        i -= 1;
        let ghost s = ov.skip(i as int);
        assert(s.drop_first() == ov.skip(i + 1));
        assert(s[0] == (mount.options@[i as int].0@, mount.options@[i as int].1@));
        if mount.options[i].0 == key.to_owned() {
            found = Some(mount.options[i].1.clone());
        }
    }
    assert(ov.skip(0) == ov);
    found
}

} // verus!
