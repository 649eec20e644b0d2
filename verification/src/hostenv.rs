//! The host environment, resolved once at startup and passed down explicitly.
use crate::path::{with_ext, with_extension};
use crate::text::{copy, opt_str};
use vstd::prelude::*;

verus! {

broadcast use vstd::string::group_string_axioms;

#[derive(Debug)]
pub struct HostEnv {
    /// The host's command-line program.
    pub herdr_bin: String,
    /// Our own pane; `None` when we run standalone.
    pub own_pane: Option<String>,
    /// The preview pane (known to the list only).
    pub preview_pane: Option<String>,
    /// The view's socket; also the base path for popup answer files and the
    /// editor's remote socket.
    pub socket: Option<String>,
}

impl HostEnv {
    /// The environment from what the host set; its program is `herdr` unless
    /// told otherwise.
    pub fn new(
        herdr_bin: Option<String>,
        own_pane: Option<String>,
        preview_pane: Option<String>,
        socket: Option<String>,
    ) -> (r: HostEnv)
        ensures
            r.herdr_bin@ == (match herdr_bin {
                Some(bin) => bin@,
                None => "herdr"@,
            }),
            r.own_pane == own_pane,
            r.preview_pane == preview_pane,
            r.socket == socket,
    {
        let herdr_bin = match herdr_bin {
            Some(bin) => bin,
            None => copy("herdr"),
        };
        HostEnv { herdr_bin, own_pane, preview_pane, socket }
    }

    pub fn in_herdr(&self) -> (r: bool)
        ensures
            r == self.own_pane.is_some(),
    {
        self.own_pane.is_some()
    }

    /// The editor's remote socket, next to the view's own.
    pub fn nvim_server(&self) -> (r: Option<String>)
        ensures
            opt_str(r) == (match self.socket {
                Some(s) => Some(with_ext(s@, "nvim"@)),
                None => None,
            }),
    {
        match &self.socket {
            Some(s) => Some(with_extension(s.as_str(), "nvim")),
            None => None,
        }
    }
}

} // verus!
