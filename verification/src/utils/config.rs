//! Where the configuration of this client lives.
use vstd::prelude::*;

verus! {

/// The directory under which the configuration directory lies on Linux.
#[derive(Debug)]
pub enum ConfigRoot {
    /// The directory that `$XDG_CONFIG_HOME` names.
    XdgConfigHome(String),
    /// `.config` under the directory that `$HOME` names.
    HomeConfig(String),
}

/// The directory under which the configuration lies on Linux, from the
/// values of `$XDG_CONFIG_HOME` and `$HOME` (`None` where unset):
/// `$XDG_CONFIG_HOME` when it is set, otherwise `.config` under `$HOME`, and
/// none when neither is set.
pub fn config_root(xdg_config_home: Option<String>, home: Option<String>) -> (r: Option<ConfigRoot>)
    ensures
        match xdg_config_home {
            Some(x) => r == Some(ConfigRoot::XdgConfigHome(x)),
            None => match home {
                Some(h) => r == Some(ConfigRoot::HomeConfig(h)),
                None => r is None,
            },
        },
{
    match xdg_config_home {
        Some(x) => Some(ConfigRoot::XdgConfigHome(x)),
        None => match home {
            Some(h) => Some(ConfigRoot::HomeConfig(h)),
            None => None,
        },
    }
}

} // verus!
