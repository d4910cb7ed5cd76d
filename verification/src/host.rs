//! The host record produced by the parser, the recognized setting keys, and
//! the error taxonomy.

use vstd::prelude::*;

use crate::chars::{lower_chars, lower_seq, parse_u32_spec, chars_of};

verus! {

/// The mathematical image of a [`Host`]: every text field as a sequence of
/// characters.
#[verifier::ext_equal]
pub struct HostV {
    pub host_id: Seq<char>,
    pub host_name: Option<Seq<char>>,
    pub port: Option<u32>,
    pub user: Option<Seq<char>>,
    pub proxy_jump: Option<Seq<char>>,
    pub local_forward: Option<Seq<char>>,
    pub id_file: Option<Seq<char>>,
    pub expanded: bool,
}

/// One `Host` block of the configuration: the identifier (first token after
/// `Host`), the optional settings, and the view-only expand flag.
pub struct Host {
    pub host_id: String,
    pub host_name: Option<String>,
    pub port: Option<u32>,
    pub user: Option<String>,
    pub proxy_jump: Option<String>,
    pub local_forward: Option<String>,
    pub id_file: Option<String>,
    pub expanded: bool,
}

pub open spec fn opt_view(o: Option<String>) -> Option<Seq<char>> {
    match o {
        Some(s) => Some(s@),
        None => None,
    }
}

impl View for Host {
    type V = HostV;

    open spec fn view(&self) -> HostV {
        HostV {
            host_id: self.host_id@,
            host_name: opt_view(self.host_name),
            port: self.port,
            user: opt_view(self.user),
            proxy_jump: opt_view(self.proxy_jump),
            local_forward: opt_view(self.local_forward),
            id_file: opt_view(self.id_file),
            expanded: self.expanded,
        }
    }
}

/// The records of a host list, each as its mathematical image.
pub open spec fn hosts_view(s: Seq<Host>) -> Seq<HostV> {
    s.map_values(|h: Host| h@)
}

/// A fresh record for a newly opened block: only the identifier is set.
pub open spec fn fresh_host(id: Seq<char>) -> HostV {
    HostV {
        host_id: id,
        host_name: None,
        port: None,
        user: None,
        proxy_jump: None,
        local_forward: None,
        id_file: None,
        expanded: false,
    }
}

pub fn new_host(host_id: String) -> (r: Host)
    ensures
        r@ == fresh_host(host_id@),
{
    Host {
        host_id,
        host_name: None,
        port: None,
        user: None,
        proxy_jump: None,
        local_forward: None,
        id_file: None,
        expanded: false,
    }
}

/// The recognized setting keys of a block.
#[derive(Clone, Copy, Debug, PartialEq, Eq, Structural)]
pub enum SshSetting {
    ProxyJump,
    HostName,
    User,
    Identityfile,
    LocalForward,
    Port,
}

/// Which setting a lower-cased key names, if any.
pub open spec fn key_kind(k: Seq<char>) -> Option<SshSetting> {
    if k == seq!['p', 'o', 'r', 't'] {
        Some(SshSetting::Port)
    } else if k == seq!['h', 'o', 's', 't', 'n', 'a', 'm', 'e'] {
        Some(SshSetting::HostName)
    } else if k == seq!['p', 'r', 'o', 'x', 'y', 'j', 'u', 'm', 'p'] {
        Some(SshSetting::ProxyJump)
    } else if k == seq!['l', 'o', 'c', 'a', 'l', 'f', 'o', 'r', 'w', 'a', 'r', 'd'] {
        Some(SshSetting::LocalForward)
    } else if k == seq!['i', 'd', 'e', 'n', 't', 'i', 't', 'y', 'f', 'i', 'l', 'e'] {
        Some(SshSetting::Identityfile)
    } else if k == seq!['u', 's', 'e', 'r'] {
        Some(SshSetting::User)
    } else {
        None
    }
}

/// Which setting a key names, compared case-insensitively.
pub fn setting_from_chars(v: &[char]) -> (r: Option<SshSetting>)
    ensures
        r == key_kind(lower_seq(v@)),
{
    let k = lower_chars(v);
    let ghost kv = lower_seq(v@);
    if k.len() == 4 && k[0] == 'p' && k[1] == 'o' && k[2] == 'r' && k[3] == 't' {
        proof {
            assert(kv =~= seq!['p', 'o', 'r', 't']);
        }
        Some(SshSetting::Port)
    } else if k.len() == 8 && k[0] == 'h' && k[1] == 'o' && k[2] == 's' && k[3] == 't' && k[4]
        == 'n' && k[5] == 'a' && k[6] == 'm' && k[7] == 'e' {
        proof {
            assert(kv =~= seq!['h', 'o', 's', 't', 'n', 'a', 'm', 'e']);
        }
        Some(SshSetting::HostName)
    } else if k.len() == 9 && k[0] == 'p' && k[1] == 'r' && k[2] == 'o' && k[3] == 'x' && k[4]
        == 'y' && k[5] == 'j' && k[6] == 'u' && k[7] == 'm' && k[8] == 'p' {
        proof {
            assert(kv =~= seq!['p', 'r', 'o', 'x', 'y', 'j', 'u', 'm', 'p']);
        }
        Some(SshSetting::ProxyJump)
    } else if k.len() == 12 && k[0] == 'l' && k[1] == 'o' && k[2] == 'c' && k[3] == 'a' && k[4]
        == 'l' && k[5] == 'f' && k[6] == 'o' && k[7] == 'r' && k[8] == 'w' && k[9] == 'a' && k[10]
        == 'r' && k[11] == 'd' {
        proof {
            assert(kv =~= seq!['l', 'o', 'c', 'a', 'l', 'f', 'o', 'r', 'w', 'a', 'r', 'd']);
        }
        Some(SshSetting::LocalForward)
    } else if k.len() == 12 && k[0] == 'i' && k[1] == 'd' && k[2] == 'e' && k[3] == 'n' && k[4]
        == 't' && k[5] == 'i' && k[6] == 't' && k[7] == 'y' && k[8] == 'f' && k[9] == 'i' && k[10]
        == 'l' && k[11] == 'e' {
        proof {
            assert(kv =~= seq!['i', 'd', 'e', 'n', 't', 'i', 't', 'y', 'f', 'i', 'l', 'e']);
        }
        Some(SshSetting::Identityfile)
    } else if k.len() == 4 && k[0] == 'u' && k[1] == 's' && k[2] == 'e' && k[3] == 'r' {
        proof {
            assert(kv =~= seq!['u', 's', 'e', 'r']);
        }
        Some(SshSetting::User)
    } else {
        proof {
            if key_kind(kv) is Some {
                assert(false);
            }
        }
        None
    }
}

impl SshSetting {
    /// Which setting a key string names, compared case-insensitively.
    pub fn from_str(str: &str) -> (r: Option<SshSetting>)
        ensures
            r == key_kind(lower_seq(str@)),
    {
        let v = chars_of(str);
        setting_from_chars(v.as_slice())
    }
}

/// Assigning a setting into a record: the named field takes the value,
/// overwriting any earlier one; a port value that is not a decimal number
/// leaves the field absent.
pub open spec fn apply_setting(h: HostV, k: SshSetting, v: Seq<char>) -> HostV {
    match k {
        SshSetting::ProxyJump => HostV { proxy_jump: Some(v), ..h },
        SshSetting::HostName => HostV { host_name: Some(v), ..h },
        SshSetting::User => HostV { user: Some(v), ..h },
        SshSetting::Identityfile => HostV { id_file: Some(v), ..h },
        SshSetting::LocalForward => HostV { local_forward: Some(v), ..h },
        SshSetting::Port => HostV { port: parse_u32_spec(v), ..h },
    }
}

/// Errors of reading a configuration: a failure of the file-reading
/// collaborator, or a grammar violation at a 1-based line number.
pub enum SshConfError {
    Io(String),
    ParseError(usize, String),
}

/// Within one block the last occurrence of a key wins: applying the same
/// key twice leaves exactly the state of the second application.
pub proof fn lemma_duplicate_key_last_wins(h: HostV, k: SshSetting, v1: Seq<char>, v2: Seq<char>)
    ensures
        apply_setting(apply_setting(h, k, v1), k, v2) == apply_setting(h, k, v2),
{
    assert(apply_setting(apply_setting(h, k, v1), k, v2) =~= apply_setting(h, k, v2));
}

/// A port value that is not a decimal number is no error: the setting still
/// applies, with the port field absent.
pub proof fn lemma_port_tolerance(h: HostV, v: Seq<char>)
    requires
        parse_u32_spec(v) is None,
    ensures
        apply_setting(h, SshSetting::Port, v).port is None,
{
}

} // verus!
