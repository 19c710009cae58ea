//! where the editor's files go, and when they are rewritten.
//!
//! a wisp binary with no data/ beside it unpacks its embedded copy into
//! the user data dir and runs from there; the user's own files live in the
//! xdg config dir, which is created and seeded once. the file system work
//! is done by the companion crate; the decisions are made here, on paths
//! as the raw bytes unix paths are.

use vstd::prelude::*;
use vstd::string::StringSliceAdditionalSpecFns;

verus! {

/// a path is absolute when it starts at the root
pub open spec fn is_absolute(p: Seq<u8>) -> bool {
    p.len() > 0 && p[0] == 47
}

/// `dir` joined with a relative path: a separator between the two unless
/// `dir` already ends in one
pub open spec fn join(dir: Seq<u8>, rel: Seq<u8>) -> Seq<u8> {
    if dir.len() > 0 && dir.last() == 47 {
        dir + rel
    } else {
        dir + seq![47u8] + rel
    }
}

/// the xdg lookup: the variable wins when it is set to an absolute path
/// (the spec calls a relative one invalid, to be ignored); otherwise the
/// fallback under a non-empty home; otherwise nothing
pub open spec fn pick_spec(var: Option<Seq<u8>>, home: Option<Seq<u8>>, fallback: Seq<u8>) -> Option<Seq<u8>> {
    match var {
        Some(dir) if is_absolute(dir) => Some(dir),
        _ => match home {
            Some(h) if h.len() > 0 => Some(join(h, fallback)),
            _ => None,
        },
    }
}

pub open spec fn opt_view(v: Option<Vec<u8>>) -> Option<Seq<u8>> {
    match v {
        Some(b) => Some(b@),
        None => None,
    }
}

fn join_bytes(dir: &Vec<u8>, rel: &[u8]) -> (p: Vec<u8>)
    ensures
        p@ == join(dir@, rel@),
{
    let mut out = vstd::slice::slice_to_vec(dir.as_slice());
    if !(dir.len() > 0 && dir[dir.len() - 1] == 47u8) {
        out.push(47u8);
    }
    let mut i: usize = 0;
    let ghost start = out@;
    while i < rel.len()
        invariant
            i <= rel@.len(),
            out@ == start + rel@.take(i as int),
        decreases rel@.len() - i,
    {
        out.push(rel[i]);
        assert(rel@.take(i + 1) =~= rel@.take(i as int).push(rel@[i as int]));
        i = i + 1;
    }
    assert(rel@.take(i as int) =~= rel@);
    out
}

/// the xdg base directory from the variable's value `var`, `home` and the
/// fallback under home, kept free of the environment
pub fn pick(var: Option<Vec<u8>>, home: Option<Vec<u8>>, fallback: &str) -> (dir: Option<Vec<u8>>)
    ensures
        opt_view(dir) == pick_spec(opt_view(var), opt_view(home), fallback.spec_bytes()),
{
    if let Some(dir) = var {
        if dir.len() > 0 && dir[0] == 47u8 {
            return Some(dir);
        }
    }
    match home {
        Some(home) => {
            if home.len() > 0 {
                Some(join_bytes(&home, fallback.as_bytes()))
            } else {
                None
            }
        },
        None => None,
    }
}

/// a base directory with `wisp` under it; no home directory is an error
pub open spec fn wisp_dir(base: Option<Seq<u8>>) -> Result<Seq<u8>, Seq<char>> {
    match base {
        Some(dir) => Ok(join(dir, "wisp"@.map_values(|c: char| c as u8))),
        None => Err("no home directory"@),
    }
}

pub open spec fn res_view(r: Result<Vec<u8>, String>) -> Result<Seq<u8>, Seq<char>> {
    match r {
        Ok(p) => Ok(p@),
        Err(e) => Err(e@),
    }
}

fn under_wisp(base: Option<Vec<u8>>) -> (r: Result<Vec<u8>, String>)
    ensures
        res_view(r) == wisp_dir(opt_view(base)),
{
    proof {
        reveal_strlit("wisp");
    }
    match base {
        Some(dir) => {
            let name: [u8; 4] = [119, 105, 115, 112];
            assert(name@ =~= "wisp"@.map_values(|c: char| c as u8));
            Ok(join_bytes(&dir, &name))
        },
        None => Err("no home directory".to_owned()),
    }
}

/// the editor's own config directory: $XDG_CONFIG_HOME/wisp, which is
/// ~/.config/wisp unless the variable says otherwise; `xdg_config_home`
/// and `home` are the two variables' values
pub fn config_dir(xdg_config_home: Option<Vec<u8>>, home: Option<Vec<u8>>) -> (dir: Result<Vec<u8>, String>)
    ensures
        res_view(dir) == wisp_dir(
            pick_spec(opt_view(xdg_config_home), opt_view(home), ".config"@.map_values(|c: char| c as u8)),
        ),
{
    proof {
        reveal_strlit(".config");
    }
    let base = pick(xdg_config_home, home, ".config");
    proof {
        assert(".config".spec_bytes() =~= ".config"@.map_values(|c: char| c as u8)) by {
            vstd::string::is_ascii_spec_bytes(".config");
        }
    }
    under_wisp(base)
}

/// $XDG_STATE_HOME/wisp: things the editor writes for itself and the user
/// never edits -- not config, and not data either
pub fn state_dir(xdg_state_home: Option<Vec<u8>>, home: Option<Vec<u8>>) -> (dir: Result<Vec<u8>, String>)
    ensures
        res_view(dir) == wisp_dir(
            pick_spec(opt_view(xdg_state_home), opt_view(home), ".local/state"@.map_values(|c: char| c as u8)),
        ),
{
    proof {
        reveal_strlit(".local/state");
    }
    let base = pick(xdg_state_home, home, ".local/state");
    proof {
        assert(".local/state".spec_bytes() =~= ".local/state"@.map_values(|c: char| c as u8)) by {
            vstd::string::is_ascii_spec_bytes(".local/state");
        }
    }
    under_wisp(base)
}

/// whether the unpacked tree must be written (again): unless its stamp
/// says it is this version. a current stamp means hands off, even if the
/// tree was edited by hand; deleting the stamp asks for a fresh tree
pub fn needs_unpack(stamp: Option<&str>, version: &str) -> (refresh: bool)
    ensures
        refresh == match stamp {
            Some(s) => s@ != version@,
            None => true,
        },
{
    match stamp {
        Some(s) => s.to_owned() != version.to_owned(),
        None => true,
    }
}

/// what seeds a fresh config dir's init.lua: nothing when one exists (it
/// is never touched), else the module of an install from before the
/// config dir existed, else the stock stub
pub fn seed_for(init_exists: bool, legacy: Option<Vec<u8>>, stock: Option<&[u8]>) -> (seed: Option<Vec<u8>>)
    ensures
        opt_view(seed) == (if init_exists {
            None
        } else {
            match legacy {
                Some(l) => Some(l@),
                None => match stock {
                    Some(s) => Some(s@),
                    None => None,
                },
            }
        }),
{
    if init_exists {
        return None;
    }
    match legacy {
        Some(l) => Some(l),
        None => match stock {
            Some(s) => Some(vstd::slice::slice_to_vec(s)),
            None => None,
        },
    }
}

/// `path`'s first component is `user` (the bytes 117, 115, 101, 114)
pub open spec fn under_user(path: Seq<u8>) -> bool {
    &&& path.len() >= 4
    &&& path[0] == 117 && path[1] == 115 && path[2] == 101 && path[3] == 114
    &&& path.len() == 4 || path[4] == 47
}

/// whether a file of the embedded tree is unpacked: all but those under
/// user/, which seeds the config dir instead (a second copy inside the
/// editor's own tree would be dead the moment it was written)
pub fn ships(path: &[u8]) -> (unpacked: bool)
    ensures
        unpacked == !under_user(path@),
{
    let first = path.len() >= 4 && path[0] == 117u8 && path[1] == 115u8 && path[2] == 101u8
        && path[3] == 114u8;
    !(first && (path.len() == 4 || path[4] == 47u8))
}

} // verus!
