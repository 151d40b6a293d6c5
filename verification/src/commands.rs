//! The plugin's commands: the shapes their arguments take, and what they
//! decide on the plugin's lists of excepted channels and peers and on its
//! tasks.
use crate::config::str_eq;
use crate::model::{contains_key_bytes, contains_scid, pubkey_of_text, PeerChannel, PubKeyBytes};
use crate::stats::channel_index;
use crate::tasks::{task_index, Task, Tasks};
use crate::model::TaskIdentifier;
use crate::{Job, SatDirection};
use crate::parse::{lookup, lookup_exec, parse_scid, scid_of_text, JsonArg};
use vstd::prelude::*;

verus! {

pub const KEY_SCID: &'static str = "scid";
pub const KEY_JSON: &'static str = "json";
pub const KEY_JOB: &'static str = "job";
pub const KEY_COMMAND: &'static str = "command";
pub const KEY_ID: &'static str = "id";
pub const WORD_ALL: &'static str = "all";
pub const WORD_LIST: &'static str = "list";
pub const WORD_ADD: &'static str = "add";
pub const WORD_REMOVE: &'static str = "remove";

/// The arguments of a command: an array, an object, or something else.
#[derive(Debug, Clone)]
pub enum RpcArgs {
    Array(Vec<JsonArg>),
    Object(Vec<(String, JsonArg)>),
    Other,
}

/// Why a command's arguments were refused.
#[derive(Debug, Clone, Copy, PartialEq, Eq, Structural)]
pub enum ArgError {
    /// Neither an array nor an object.
    NotArrayOrObject,
    /// More or fewer arguments than the command takes.
    WrongCount,
    /// An argument that must be a string is not.
    NotAString,
    /// An argument that must be a boolean is not.
    NotABool,
    /// A short channel id that does not read as one.
    MalformedScid,
    /// A node id that does not read as one.
    MalformedNodeId,
    /// An object without the key the command needs.
    MissingKey,
}

/// A short channel id argument: the channel, or why it was refused.
pub open spec fn scid_arg(a: JsonArg) -> Result<u64, ArgError> {
    match a {
        JsonArg::Str(s) => match scid_of_text(s@) {
            Some(c) => Ok(c),
            None => Err(ArgError::MalformedScid),
        },
        _ => Err(ArgError::NotAString),
    }
}

fn scid_arg_exec(a: &JsonArg) -> (r: Result<u64, ArgError>)
    ensures
        r == scid_arg(*a),
{
    match a {
        JsonArg::Str(s) => match parse_scid(s.as_str()) {
            Some(c) => Ok(c),
            None => Err(ArgError::MalformedScid),
        },
        _ => Err(ArgError::NotAString),
    }
}

/// The optional channel of `sling-stop`: none, one in an array, or under
/// `scid` in an object.
pub open spec fn spec_stop_args(args: RpcArgs) -> Result<Option<u64>, ArgError> {
    match args {
        RpcArgs::Array(a) => if a@.len() > 1 {
            Err(ArgError::WrongCount)
        } else if a@.len() == 1 {
            match scid_arg(a@[0]) {
                Ok(c) => Ok(Some(c)),
                Err(e) => Err(e),
            }
        } else {
            Ok(None)
        },
        RpcArgs::Object(o) => match lookup(o@, KEY_SCID@) {
            None => Ok(None),
            Some(v) => match scid_arg(v) {
                Ok(c) => Ok(Some(c)),
                Err(e) => Err(e),
            },
        },
        RpcArgs::Other => Err(ArgError::NotArrayOrObject),
    }
}

/// The channel `sling-stop` is limited to, if any.
pub fn stop_args(args: &RpcArgs) -> (r: Result<Option<u64>, ArgError>)
    ensures
        r == spec_stop_args(*args),
{
    match args {
        RpcArgs::Array(a) => {
            if a.len() > 1 {
                Err(ArgError::WrongCount)
            } else if a.len() == 1 {
                match scid_arg_exec(&a[0]) {
                    Ok(c) => Ok(Some(c)),
                    Err(e) => Err(e),
                }
            } else {
                Ok(None)
            }
        },
        RpcArgs::Object(o) => match lookup_exec(o, KEY_SCID) {
            None => Ok(None),
            Some(v) => match scid_arg_exec(v) {
                Ok(c) => Ok(Some(c)),
                Err(e) => Err(e),
            },
        },
        RpcArgs::Other => Err(ArgError::NotArrayOrObject),
    }
}

/// The optional channel of `sling-go`: as for `sling-stop`, but an object
/// must either be empty or hold `scid` as a string.
pub open spec fn spec_go_args(args: RpcArgs) -> Result<Option<u64>, ArgError> {
    match args {
        RpcArgs::Object(o) => match lookup(o@, KEY_SCID@) {
            Some(JsonArg::Str(s)) => match scid_of_text(s@) {
                Some(c) => Ok(Some(c)),
                None => Err(ArgError::MalformedScid),
            },
            _ => if o@.len() == 0 { Ok(None) } else { Err(ArgError::NotAString) },
        },
        _ => spec_stop_args(args),
    }
}

/// The channel `sling-go` is limited to, if any.
pub fn go_args(args: &RpcArgs) -> (r: Result<Option<u64>, ArgError>)
    ensures
        r == spec_go_args(*args),
{
    match args {
        RpcArgs::Object(o) => match lookup_exec(o, KEY_SCID) {
            Some(JsonArg::Str(s)) => match parse_scid(s.as_str()) {
                Some(c) => Ok(Some(c)),
                None => Err(ArgError::MalformedScid),
            },
            _ => {
                if o.len() == 0 {
                    Ok(None)
                } else {
                    Err(ArgError::NotAString)
                }
            },
        },
        _ => stop_args(args),
    }
}

/// The optional channel of `sling-jobsettings`: at most one argument, in an
/// array or under `scid` in an object.
pub open spec fn spec_jobsettings_args(args: RpcArgs) -> Result<Option<u64>, ArgError> {
    match args {
        RpcArgs::Array(a) => if a@.len() > 1 {
            Err(ArgError::WrongCount)
        } else if a@.len() == 0 {
            Ok(None)
        } else {
            match scid_arg(a@[0]) {
                Ok(c) => Ok(Some(c)),
                Err(e) => Err(e),
            }
        },
        RpcArgs::Object(o) => if o@.len() > 1 {
            Err(ArgError::WrongCount)
        } else if o@.len() == 0 {
            Ok(None)
        } else {
            match lookup(o@, KEY_SCID@) {
                Some(v) => match scid_arg(v) {
                    Ok(c) => Ok(Some(c)),
                    Err(e) => Err(e),
                },
                None => Err(ArgError::MissingKey),
            }
        },
        RpcArgs::Other => Err(ArgError::NotArrayOrObject),
    }
}

/// The channel whose job settings are asked for, or none for all.
pub fn jobsettings_args(args: &RpcArgs) -> (r: Result<Option<u64>, ArgError>)
    ensures
        r == spec_jobsettings_args(*args),
{
    match args {
        RpcArgs::Array(a) => {
            if a.len() > 1 {
                Err(ArgError::WrongCount)
            } else if a.len() == 0 {
                Ok(None)
            } else {
                match scid_arg_exec(&a[0]) {
                    Ok(c) => Ok(Some(c)),
                    Err(e) => Err(e),
                }
            }
        },
        RpcArgs::Object(o) => {
            if o.len() > 1 {
                Err(ArgError::WrongCount)
            } else if o.len() == 0 {
                Ok(None)
            } else {
                match lookup_exec(o, KEY_SCID) {
                    Some(v) => match scid_arg_exec(v) {
                        Ok(c) => Ok(Some(c)),
                        Err(e) => Err(e),
                    },
                    None => Err(ArgError::MissingKey),
                }
            }
        },
        RpcArgs::Other => Err(ArgError::NotArrayOrObject),
    }
}

/// Which jobs `sling-deletejob` deletes.
#[derive(Debug, Clone, Copy, PartialEq, Eq, Structural)]
pub enum DeleteTarget {
    All,
    One(u64),
}

/// The text naming the jobs to delete: the only argument of an array, or
/// `job` of an object with one key.
pub open spec fn delete_text(args: RpcArgs) -> Result<Seq<char>, ArgError> {
    match args {
        RpcArgs::Array(a) => if a@.len() != 1 {
            Err(ArgError::WrongCount)
        } else {
            match a@[0] {
                JsonArg::Str(s) => Ok(s@),
                _ => Err(ArgError::NotAString),
            }
        },
        RpcArgs::Object(o) => if o@.len() != 1 {
            Err(ArgError::WrongCount)
        } else {
            match lookup(o@, KEY_JOB@) {
                Some(JsonArg::Str(s)) => Ok(s@),
                _ => Err(ArgError::NotAString),
            }
        },
        RpcArgs::Other => Err(ArgError::NotArrayOrObject),
    }
}

/// The jobs `sling-deletejob` deletes: all of them for `all`, else the one
/// of the channel named.
pub open spec fn spec_delete_args(args: RpcArgs) -> Result<DeleteTarget, ArgError> {
    match delete_text(args) {
        Err(e) => Err(e),
        Ok(t) => if t == WORD_ALL@ {
            Ok(DeleteTarget::All)
        } else {
            match scid_of_text(t) {
                Some(c) => Ok(DeleteTarget::One(c)),
                None => Err(ArgError::MalformedScid),
            }
        },
    }
}

/// The jobs `sling-deletejob` is asked to delete.
pub fn delete_args(args: &RpcArgs) -> (r: Result<DeleteTarget, ArgError>)
    ensures
        r == spec_delete_args(*args),
{
    let text: &String = match args {
        RpcArgs::Array(a) => {
            if a.len() != 1 {
                return Err(ArgError::WrongCount);
            }
            match &a[0] {
                JsonArg::Str(s) => s,
                _ => {
                    return Err(ArgError::NotAString);
                },
            }
        },
        RpcArgs::Object(o) => {
            if o.len() != 1 {
                return Err(ArgError::WrongCount);
            }
            match lookup_exec(o, KEY_JOB) {
                Some(JsonArg::Str(s)) => s,
                _ => {
                    return Err(ArgError::NotAString);
                },
            }
        },
        RpcArgs::Other => {
            return Err(ArgError::NotArrayOrObject);
        },
    };
    if str_eq(text.as_str(), WORD_ALL) {
        return Ok(DeleteTarget::All);
    }
    match parse_scid(text.as_str()) {
        Some(c) => Ok(DeleteTarget::One(c)),
        None => Err(ArgError::MalformedScid),
    }
}

/// The arguments of `sling-stats`: an optional channel and whether to
/// answer in JSON.
pub open spec fn spec_stats_args(args: RpcArgs) -> Result<(Option<u64>, bool), ArgError> {
    match args {
        RpcArgs::Array(a) => if a@.len() > 2 {
            Err(ArgError::WrongCount)
        } else if a@.len() == 0 {
            Ok((None, false))
        } else {
            match a@[0] {
                JsonArg::Bool(flag) => Ok((None, flag)),
                first => match scid_arg(first) {
                    Err(e) => Err(e),
                    Ok(c) => if a@.len() < 2 {
                        Ok((Some(c), false))
                    } else {
                        match a@[1] {
                            JsonArg::Bool(flag) => Ok((Some(c), flag)),
                            _ => Err(ArgError::NotABool),
                        }
                    },
                },
            }
        },
        RpcArgs::Object(o) => {
            let scid = match lookup(o@, KEY_SCID@) {
                None => Ok(None),
                Some(v) => match scid_arg(v) {
                    Ok(c) => Ok(Some(c)),
                    Err(e) => Err(e),
                },
            };
            match scid {
                Err(e) => Err(e),
                Ok(c) => match lookup(o@, KEY_JSON@) {
                    None => Ok((c, false)),
                    Some(JsonArg::Bool(flag)) => Ok((c, flag)),
                    Some(_) => Err(ArgError::NotABool),
                },
            }
        },
        RpcArgs::Other => Err(ArgError::NotArrayOrObject),
    }
}

/// The channel `sling-stats` is asked about (none for the overview), and
/// whether to answer in JSON.
pub fn stats_args(args: &RpcArgs) -> (r: Result<(Option<u64>, bool), ArgError>)
    ensures
        r == spec_stats_args(*args),
{
    match args {
        RpcArgs::Array(a) => {
            if a.len() > 2 {
                return Err(ArgError::WrongCount);
            }
            if a.len() == 0 {
                return Ok((None, false));
            }
            if let JsonArg::Bool(flag) = &a[0] {
                return Ok((None, *flag));
            }
            let c = scid_arg_exec(&a[0])?;
            if a.len() < 2 {
                return Ok((Some(c), false));
            }
            match &a[1] {
                JsonArg::Bool(flag) => Ok((Some(c), *flag)),
                _ => Err(ArgError::NotABool),
            }
        },
        RpcArgs::Object(o) => {
            let c = match lookup_exec(o, KEY_SCID) {
                None => None,
                Some(v) => Some(scid_arg_exec(v)?),
            };
            match lookup_exec(o, KEY_JSON) {
                None => Ok((c, false)),
                Some(JsonArg::Bool(flag)) => Ok((c, *flag)),
                Some(_) => Err(ArgError::NotABool),
            }
        },
        RpcArgs::Other => Err(ArgError::NotArrayOrObject),
    }
}

/// The command word and optional channel of `sling-exceptchan`: `list`
/// alone, or a word and a channel, in an array or under `command` and
/// `scid` in an object.
pub open spec fn spec_exceptchan_args(args: RpcArgs) -> Result<(Seq<char>, Option<u64>), ArgError> {
    match args {
        RpcArgs::Array(a) => if a@.len() > 2 || a@.len() == 0 {
            Err(ArgError::WrongCount)
        } else {
            match a@[0] {
                JsonArg::Str(c) => if c@ == WORD_LIST@ && a@.len() == 1 {
                    Ok((c@, None))
                } else if a@.len() == 2 {
                    match scid_arg(a@[1]) {
                        Ok(scid) => Ok((c@, Some(scid))),
                        Err(e) => Err(e),
                    }
                } else {
                    Err(ArgError::WrongCount)
                },
                _ => Err(ArgError::NotAString),
            }
        },
        RpcArgs::Object(o) => match lookup(o@, KEY_COMMAND@) {
            Some(JsonArg::Str(c)) => match lookup(o@, KEY_SCID@) {
                None => Ok((c@, None)),
                Some(v) => match scid_arg(v) {
                    Ok(scid) => Ok((c@, Some(scid))),
                    Err(e) => Err(e),
                },
            },
            _ => Err(ArgError::NotAString),
        },
        RpcArgs::Other => Err(ArgError::NotArrayOrObject),
    }
}

/// The command word and optional channel `sling-exceptchan` was given.
pub fn exceptchan_args(args: &RpcArgs) -> (r: Result<(String, Option<u64>), ArgError>)
    ensures
        match r {
            Ok((c, s)) => spec_exceptchan_args(*args) == Ok::<(Seq<char>, Option<u64>), ArgError>((c@, s)),
            Err(e) => spec_exceptchan_args(*args) == Err::<(Seq<char>, Option<u64>), ArgError>(e),
        },
{
    match args {
        RpcArgs::Array(a) => {
            if a.len() > 2 || a.len() == 0 {
                return Err(ArgError::WrongCount);
            }
            let c = match &a[0] {
                JsonArg::Str(c) => c,
                _ => {
                    return Err(ArgError::NotAString);
                },
            };
            if str_eq(c.as_str(), WORD_LIST) && a.len() == 1 {
                Ok((c.clone(), None))
            } else if a.len() == 2 {
                let scid = scid_arg_exec(&a[1])?;
                Ok((c.clone(), Some(scid)))
            } else {
                Err(ArgError::WrongCount)
            }
        },
        RpcArgs::Object(o) => {
            let c = match lookup_exec(o, KEY_COMMAND) {
                Some(JsonArg::Str(c)) => c,
                _ => {
                    return Err(ArgError::NotAString);
                },
            };
            match lookup_exec(o, KEY_SCID) {
                None => Ok((c.clone(), None)),
                Some(v) => {
                    let scid = scid_arg_exec(v)?;
                    Ok((c.clone(), Some(scid)))
                },
            }
        },
        RpcArgs::Other => Err(ArgError::NotArrayOrObject),
    }
}

/// A node id argument: the node, or why it was refused.
pub open spec fn node_arg(a: JsonArg) -> Result<PubKeyBytes, ArgError> {
    match a {
        JsonArg::Str(s) => match pubkey_of_text(s@) {
            Some(k) => Ok(k),
            None => Err(ArgError::MalformedNodeId),
        },
        _ => Err(ArgError::NotAString),
    }
}

fn node_arg_exec(a: &JsonArg) -> (r: Result<PubKeyBytes, ArgError>)
    ensures
        r == node_arg(*a),
{
    match a {
        JsonArg::Str(s) => match PubKeyBytes::from_str(s.as_str()) {
            Some(k) => Ok(k),
            None => Err(ArgError::MalformedNodeId),
        },
        _ => Err(ArgError::NotAString),
    }
}

/// The command word and optional node of `sling-exceptpeer`: `list`
/// alone, or a word and a node id, in an array or under `command` and `id`
/// in an object.
pub open spec fn spec_exceptpeer_args(args: RpcArgs) -> Result<(Seq<char>, Option<PubKeyBytes>), ArgError> {
    match args {
        RpcArgs::Array(a) => if a@.len() > 2 || a@.len() == 0 {
            Err(ArgError::WrongCount)
        } else {
            match a@[0] {
                JsonArg::Str(c) => if c@ == WORD_LIST@ && a@.len() == 1 {
                    Ok((c@, None))
                } else if a@.len() == 2 {
                    match node_arg(a@[1]) {
                        Ok(k) => Ok((c@, Some(k))),
                        Err(e) => Err(e),
                    }
                } else {
                    Err(ArgError::WrongCount)
                },
                _ => Err(ArgError::NotAString),
            }
        },
        RpcArgs::Object(o) => match lookup(o@, KEY_COMMAND@) {
            Some(JsonArg::Str(c)) => match lookup(o@, KEY_ID@) {
                None => Ok((c@, None)),
                Some(v) => match node_arg(v) {
                    Ok(k) => Ok((c@, Some(k))),
                    Err(e) => Err(e),
                },
            },
            _ => Err(ArgError::NotAString),
        },
        RpcArgs::Other => Err(ArgError::NotArrayOrObject),
    }
}

/// The command word and optional node `sling-exceptpeer` was given.
pub fn exceptpeer_args(args: &RpcArgs) -> (r: Result<(String, Option<PubKeyBytes>), ArgError>)
    ensures
        match r {
            Ok((c, k)) => spec_exceptpeer_args(*args) == Ok::<(Seq<char>, Option<PubKeyBytes>), ArgError>((c@, k)),
            Err(e) => spec_exceptpeer_args(*args) == Err::<(Seq<char>, Option<PubKeyBytes>), ArgError>(e),
        },
{
    match args {
        RpcArgs::Array(a) => {
            if a.len() > 2 || a.len() == 0 {
                return Err(ArgError::WrongCount);
            }
            let c = match &a[0] {
                JsonArg::Str(c) => c,
                _ => {
                    return Err(ArgError::NotAString);
                },
            };
            if str_eq(c.as_str(), WORD_LIST) && a.len() == 1 {
                Ok((c.clone(), None))
            } else if a.len() == 2 {
                let k = node_arg_exec(&a[1])?;
                Ok((c.clone(), Some(k)))
            } else {
                Err(ArgError::WrongCount)
            }
        },
        RpcArgs::Object(o) => {
            let c = match lookup_exec(o, KEY_COMMAND) {
                Some(JsonArg::Str(c)) => c,
                _ => {
                    return Err(ArgError::NotAString);
                },
            };
            match lookup_exec(o, KEY_ID) {
                None => Ok((c.clone(), None)),
                Some(v) => {
                    let k = node_arg_exec(v)?;
                    Ok((c.clone(), Some(k)))
                },
            }
        },
        RpcArgs::Other => Err(ArgError::NotArrayOrObject),
    }
}

/// What an except command did.
#[derive(Debug, Clone, Copy, PartialEq, Eq, Structural)]
pub enum ExceptOutcome {
    /// The lists changed (and the static list is to be written).
    Changed,
    /// The static list is asked for.
    List,
}

/// Why an except command was refused.
#[derive(Debug, Clone, Copy, PartialEq, Eq, Structural)]
pub enum ExceptError {
    AlreadyExcepted,
    HasJob,
    OwnChannel,
    Ourselves,
    NotExcepted,
    UnknownCommand,
}

/// The list with `x` added unless it holds it.
pub open spec fn set_with<T>(s: Seq<T>, x: T) -> Seq<T> {
    if s.contains(x) { s } else { s.push(x) }
}

/// Whether a value differs from `x`.
pub open spec fn other_than<T>(x: T) -> spec_fn(T) -> bool {
    |y: T| y != x
}

/// The list without `x`.
pub open spec fn set_without<T>(s: Seq<T>, x: T) -> Seq<T> {
    s.filter(other_than(x))
}

/// Adds `x` to a list of channels unless it holds it.
pub fn add_scid(v: &mut Vec<u64>, x: u64)
    ensures
        final(v)@ == set_with(old(v)@, x),
{
    if !contains_scid(v.as_slice(), x) {
        v.push(x);
    }
}

/// Removes `x` from a list of channels.
pub fn remove_scid(v: &mut Vec<u64>, x: u64)
    ensures
        final(v)@ == set_without(old(v)@, x),
{
    let ghost old_v = v@;
    let mut kept: Vec<u64> = Vec::new();
    let mut i: usize = 0;
    while i < v.len()
        invariant
            v@ == old_v,
            i <= old_v.len(),
            kept@ == old_v.subrange(0, i as int).filter(other_than(x)),
        decreases old_v.len() - i,
    {
        let ghost pre = old_v.subrange(0, i + 1);
        proof {
            assert(pre.drop_last() =~= old_v.subrange(0, i as int));
            assert(pre.last() == old_v[i as int]);
        }
        if v[i] != x {
            kept.push(v[i]);
        }
        proof {
            reveal(Seq::filter);
            assert(kept@ =~= pre.filter(other_than(x)));
        }
        i = i + 1;
    }
    proof {
        assert(old_v.subrange(0, old_v.len() as int) =~= old_v);
    }
    *v = kept;
}

/// Adds `x` to a list of nodes unless it holds it.
pub fn add_node(v: &mut Vec<PubKeyBytes>, x: PubKeyBytes)
    ensures
        final(v)@ == set_with(old(v)@, x),
{
    if !contains_key_bytes(v.as_slice(), &x) {
        v.push(x);
    }
}

/// Removes `x` from a list of nodes.
pub fn remove_node(v: &mut Vec<PubKeyBytes>, x: PubKeyBytes)
    ensures
        final(v)@ == set_without(old(v)@, x),
{
    let ghost old_v = v@;
    let mut kept: Vec<PubKeyBytes> = Vec::new();
    let mut i: usize = 0;
    while i < v.len()
        invariant
            v@ == old_v,
            i <= old_v.len(),
            kept@ == old_v.subrange(0, i as int).filter(other_than(x)),
        decreases old_v.len() - i,
    {
        let ghost pre = old_v.subrange(0, i + 1);
        proof {
            assert(pre.drop_last() =~= old_v.subrange(0, i as int));
            assert(pre.last() == old_v[i as int]);
        }
        if !v[i].same_as(&x) {
            kept.push(v[i]);
        }
        proof {
            reveal(Seq::filter);
            assert(kept@ =~= pre.filter(other_than(x)));
        }
        i = i + 1;
    }
    proof {
        assert(old_v.subrange(0, old_v.len() as int) =~= old_v);
    }
    *v = kept;
}

/// `sling-exceptchan` with a command word and an optional channel: `add`
/// excepts a channel from both directions (unless already excepted, a job's
/// channel, or one of our own), `remove` takes an excepted one back, and
/// `list` alone asks for the static list. Refused commands change nothing.
pub fn except_chan(
    command: &str,
    scid: Option<u64>,
    exclude_chans_pull: &mut Vec<u64>,
    exclude_chans_push: &mut Vec<u64>,
    static_excepts: &mut Vec<u64>,
    job_scids: &[u64],
    own_scids: &[u64],
) -> (r: Result<ExceptOutcome, ExceptError>)
    ensures
        match scid {
            None => {
                &&& final(exclude_chans_pull)@ == old(exclude_chans_pull)@
                &&& final(exclude_chans_push)@ == old(exclude_chans_push)@
                &&& final(static_excepts)@ == old(static_excepts)@
                &&& r == if command@ == WORD_LIST@ {
                    Ok::<ExceptOutcome, ExceptError>(ExceptOutcome::List)
                } else {
                    Err::<ExceptOutcome, ExceptError>(ExceptError::UnknownCommand)
                }
            },
            Some(s) => {
                let excepted = old(exclude_chans_pull)@.contains(s) || old(exclude_chans_push)@.contains(s);
                if command@ == WORD_ADD@ {
                    if excepted {
                        r == Err::<ExceptOutcome, ExceptError>(ExceptError::AlreadyExcepted)
                            && final(exclude_chans_pull)@ == old(exclude_chans_pull)@
                            && final(exclude_chans_push)@ == old(exclude_chans_push)@
                            && final(static_excepts)@ == old(static_excepts)@
                    } else if job_scids@.contains(s) {
                        r == Err::<ExceptOutcome, ExceptError>(ExceptError::HasJob)
                            && final(exclude_chans_pull)@ == old(exclude_chans_pull)@
                            && final(exclude_chans_push)@ == old(exclude_chans_push)@
                            && final(static_excepts)@ == old(static_excepts)@
                    } else if own_scids@.contains(s) {
                        r == Err::<ExceptOutcome, ExceptError>(ExceptError::OwnChannel)
                            && final(exclude_chans_pull)@ == old(exclude_chans_pull)@
                            && final(exclude_chans_push)@ == old(exclude_chans_push)@
                            && final(static_excepts)@ == old(static_excepts)@
                    } else {
                        r == Ok::<ExceptOutcome, ExceptError>(ExceptOutcome::Changed)
                            && final(exclude_chans_pull)@ == set_with(old(exclude_chans_pull)@, s)
                            && final(exclude_chans_push)@ == set_with(old(exclude_chans_push)@, s)
                            && final(static_excepts)@ == set_with(old(static_excepts)@, s)
                    }
                } else if command@ == WORD_REMOVE@ {
                    if excepted {
                        r == Ok::<ExceptOutcome, ExceptError>(ExceptOutcome::Changed)
                            && final(exclude_chans_pull)@ == set_without(old(exclude_chans_pull)@, s)
                            && final(exclude_chans_push)@ == set_without(old(exclude_chans_push)@, s)
                            && final(static_excepts)@ == set_without(old(static_excepts)@, s)
                    } else {
                        r == Err::<ExceptOutcome, ExceptError>(ExceptError::NotExcepted)
                            && final(exclude_chans_pull)@ == old(exclude_chans_pull)@
                            && final(exclude_chans_push)@ == old(exclude_chans_push)@
                            && final(static_excepts)@ == old(static_excepts)@
                    }
                } else {
                    r == Err::<ExceptOutcome, ExceptError>(ExceptError::UnknownCommand)
                        && final(exclude_chans_pull)@ == old(exclude_chans_pull)@
                        && final(exclude_chans_push)@ == old(exclude_chans_push)@
                        && final(static_excepts)@ == old(static_excepts)@
                }
            },
        },
{
    let s = match scid {
        None => {
            if str_eq(command, WORD_LIST) {
                return Ok(ExceptOutcome::List);
            }
            return Err(ExceptError::UnknownCommand);
        },
        Some(s) => s,
    };
    let excepted = contains_scid(exclude_chans_pull.as_slice(), s) || contains_scid(exclude_chans_push.as_slice(), s);
    if str_eq(command, WORD_ADD) {
        if excepted {
            return Err(ExceptError::AlreadyExcepted);
        }
        if contains_scid(job_scids, s) {
            return Err(ExceptError::HasJob);
        }
        if contains_scid(own_scids, s) {
            return Err(ExceptError::OwnChannel);
        }
        add_scid(exclude_chans_pull, s);
        add_scid(exclude_chans_push, s);
        add_scid(static_excepts, s);
        Ok(ExceptOutcome::Changed)
    } else if str_eq(command, WORD_REMOVE) {
        if excepted {
            remove_scid(exclude_chans_pull, s);
            remove_scid(exclude_chans_push, s);
            remove_scid(static_excepts, s);
            Ok(ExceptOutcome::Changed)
        } else {
            Err(ExceptError::NotExcepted)
        }
    } else {
        Err(ExceptError::UnknownCommand)
    }
}

/// The position of the first of our channels with short channel id `scid`.
pub fn find_channel(peer_channels: &[PeerChannel], scid: u64) -> (r: Option<usize>)
    ensures
        match r {
            Some(i) => channel_index(peer_channels@, scid) == Some(i as int) && i < peer_channels@.len(),
            None => channel_index(peer_channels@, scid) is None,
        },
{
    let mut i: usize = 0;
    while i < peer_channels.len()
        invariant
            i <= peer_channels@.len(),
            forall|j: int| 0 <= j < i ==> #[trigger] peer_channels@[j].short_channel_id != Some(scid),
        decreases peer_channels@.len() - i,
    {
        if peer_channels[i].short_channel_id == Some(scid) {
            proof {
                let ci = channel_index(peer_channels@, scid);
                assert(peer_channels@[i as int].short_channel_id == Some(scid));
                let k = ci->Some_0;
                if k < i {
                    assert(peer_channels@[k].short_channel_id != Some(scid));
                }
                if k > i {
                    assert(peer_channels@[i as int].short_channel_id != Some(scid));
                }
            }
            return Some(i);
        }
        i = i + 1;
    }
    None
}

/// Whether our channel `scid` leads to node `k`.
pub open spec fn channel_leads_to(peer_channels: Seq<PeerChannel>, scid: u64, k: PubKeyBytes) -> bool {
    match channel_index(peer_channels, scid) {
        Some(i) => peer_channels[i].peer_id == k,
        None => false,
    }
}

/// Whether some job's channel, among our channels, leads to node `k`.
pub open spec fn job_with_peer(job_scids: Seq<u64>, peer_channels: Seq<PeerChannel>, k: PubKeyBytes) -> bool {
    exists|j: int| 0 <= j < job_scids.len() && #[trigger] channel_leads_to(peer_channels, job_scids[j], k)
}

/// `sling-exceptpeer` with a command word and an optional node: `add`
/// excepts a node (unless already excepted, ourselves, or the peer of a
/// job's channel), `remove` takes a statically excepted one back, and
/// `list` alone asks for the static list. Refused commands change nothing.
pub fn except_peer(
    command: &str,
    node: Option<PubKeyBytes>,
    my_pubkey: &PubKeyBytes,
    exclude_peers: &mut Vec<PubKeyBytes>,
    static_excepts: &mut Vec<PubKeyBytes>,
    job_scids: &[u64],
    peer_channels: &[PeerChannel],
) -> (r: Result<ExceptOutcome, ExceptError>)
    ensures
        match node {
            None => {
                &&& final(exclude_peers)@ == old(exclude_peers)@
                &&& final(static_excepts)@ == old(static_excepts)@
                &&& r == if command@ == WORD_LIST@ {
                    Ok::<ExceptOutcome, ExceptError>(ExceptOutcome::List)
                } else {
                    Err::<ExceptOutcome, ExceptError>(ExceptError::UnknownCommand)
                }
            },
            Some(k) => if command@ == WORD_ADD@ {
                if old(exclude_peers)@.contains(k) {
                    r == Err::<ExceptOutcome, ExceptError>(ExceptError::AlreadyExcepted)
                        && final(exclude_peers)@ == old(exclude_peers)@
                        && final(static_excepts)@ == old(static_excepts)@
                } else if k == *my_pubkey {
                    r == Err::<ExceptOutcome, ExceptError>(ExceptError::Ourselves)
                        && final(exclude_peers)@ == old(exclude_peers)@
                        && final(static_excepts)@ == old(static_excepts)@
                } else if job_with_peer(job_scids@, peer_channels@, k) {
                    r == Err::<ExceptOutcome, ExceptError>(ExceptError::HasJob)
                        && final(exclude_peers)@ == old(exclude_peers)@
                        && final(static_excepts)@ == old(static_excepts)@
                } else {
                    r == Ok::<ExceptOutcome, ExceptError>(ExceptOutcome::Changed)
                        && final(exclude_peers)@ == set_with(old(exclude_peers)@, k)
                        && final(static_excepts)@ == set_with(old(static_excepts)@, k)
                }
            } else if command@ == WORD_REMOVE@ {
                if old(static_excepts)@.contains(k) {
                    r == Ok::<ExceptOutcome, ExceptError>(ExceptOutcome::Changed)
                        && final(exclude_peers)@ == set_without(old(exclude_peers)@, k)
                        && final(static_excepts)@ == set_without(old(static_excepts)@, k)
                } else {
                    r == Err::<ExceptOutcome, ExceptError>(ExceptError::NotExcepted)
                        && final(exclude_peers)@ == old(exclude_peers)@
                        && final(static_excepts)@ == old(static_excepts)@
                }
            } else {
                r == Err::<ExceptOutcome, ExceptError>(ExceptError::UnknownCommand)
                    && final(exclude_peers)@ == old(exclude_peers)@
                    && final(static_excepts)@ == old(static_excepts)@
            },
        },
{
    let k = match node {
        None => {
            if str_eq(command, WORD_LIST) {
                return Ok(ExceptOutcome::List);
            }
            return Err(ExceptError::UnknownCommand);
        },
        Some(k) => k,
    };
    if str_eq(command, WORD_ADD) {
        if contains_key_bytes(exclude_peers.as_slice(), &k) {
            return Err(ExceptError::AlreadyExcepted);
        }
        if my_pubkey.same_as(&k) {
            return Err(ExceptError::Ourselves);
        }
        let mut j: usize = 0;
        while j < job_scids.len()
            invariant
                j <= job_scids@.len(),
                node == Some(k),
                command@ == WORD_ADD@,
                !old(exclude_peers)@.contains(k),
                k != *my_pubkey,
                exclude_peers@ == old(exclude_peers)@,
                static_excepts@ == old(static_excepts)@,
                forall|t: int| 0 <= t < j ==> !#[trigger] channel_leads_to(peer_channels@, job_scids@[t], k),
            decreases job_scids@.len() - j,
        {
            if let Some(i) = find_channel(peer_channels, job_scids[j]) {
                if peer_channels[i].peer_id.same_as(&k) {
                    proof {
                        assert(channel_leads_to(peer_channels@, job_scids@[j as int], k));
                    }
                    return Err(ExceptError::HasJob);
                }
            }
            j = j + 1;
        }
        add_node(exclude_peers, k);
        add_node(static_excepts, k);
        Ok(ExceptOutcome::Changed)
    } else if str_eq(command, WORD_REMOVE) {
        if contains_key_bytes(static_excepts.as_slice(), &k) {
            remove_node(static_excepts, k);
            remove_node(exclude_peers, k);
            Ok(ExceptOutcome::Changed)
        } else {
            Err(ExceptError::NotExcepted)
        }
    } else {
        Err(ExceptError::UnknownCommand)
    }
}

/// How many tasks a job runs: its parallel jobs (or the configured
/// number), for a push job at most the HTLC limit.
pub open spec fn spec_task_count(job: Job, config_paralleljobs: u16, max_htlc_count: u64) -> u16 {
    let p = match job.paralleljobs {
        Some(p) => p,
        None => config_paralleljobs,
    };
    match job.sat_direction {
        SatDirection::Pull => p,
        SatDirection::Push => if p < (max_htlc_count as u16) { p } else { max_htlc_count as u16 },
    }
}

/// How many tasks a job runs.
pub fn task_count(job: &Job, config_paralleljobs: u16, max_htlc_count: u64) -> (r: u16)
    ensures
        r == spec_task_count(*job, config_paralleljobs, max_htlc_count),
{
    let p = job.get_paralleljobs(config_paralleljobs);
    match job.sat_direction {
        SatDirection::Pull => p,
        SatDirection::Push => {
            let cap = max_htlc_count as u16;
            if p < cap {
                p
            } else {
                cap
            }
        },
    }
}

/// Why a one-off job was not started.
#[derive(Debug, Clone, Copy, PartialEq, Eq, Structural)]
pub enum OnceRefusal {
    /// The channel cannot move the total amount (what it can move is given).
    NotEnoughCapacity(u64),
    /// The channel has a job already.
    JobExists,
    /// A task of the channel belongs to a job that is no one-off.
    NotAOnceJob,
    /// A one-off task of the channel still runs.
    OnceRunning,
}

/// Whether the channel can move a one-off job's total: what it can receive
/// for a pull, what it can spend for a push.
pub open spec fn spec_once_capacity(job: Job, receivable_msat: u64, spendable_msat: u64) -> Result<(), OnceRefusal> {
    let total = match job.onceamount_msat {
        Some(t) => t,
        None => 0,
    };
    let can = match job.sat_direction {
        SatDirection::Pull => receivable_msat,
        SatDirection::Push => spendable_msat,
    };
    if can < total { Err(OnceRefusal::NotEnoughCapacity(can)) } else { Ok(()) }
}

/// A one-off push is refused, naming what the channel can spend, exactly
/// when the channel can spend less than the job's total; a one-off pull is
/// refused, naming what the channel can receive, exactly when it can
/// receive less. Otherwise the job may start. A push does not depend on
/// what the channel can receive, nor a pull on what it can spend.
pub proof fn law_once_capacity(job: Job, receivable_msat: u64, spendable_msat: u64, other_msat: u64)
    requires
        job.onceamount_msat is Some,
    ensures
        job.sat_direction == SatDirection::Push ==> spec_once_capacity(job, receivable_msat, spendable_msat) == (
            if spendable_msat < job.onceamount_msat->0 {
                Err::<(), OnceRefusal>(OnceRefusal::NotEnoughCapacity(spendable_msat))
            } else {
                Ok::<(), OnceRefusal>(())
            }
        ),
        job.sat_direction == SatDirection::Pull ==> spec_once_capacity(job, receivable_msat, spendable_msat) == (
            if receivable_msat < job.onceamount_msat->0 {
                Err::<(), OnceRefusal>(OnceRefusal::NotEnoughCapacity(receivable_msat))
            } else {
                Ok::<(), OnceRefusal>(())
            }
        ),
        job.sat_direction == SatDirection::Push ==> spec_once_capacity(job, receivable_msat, spendable_msat)
            == spec_once_capacity(job, other_msat, spendable_msat),
        job.sat_direction == SatDirection::Pull ==> spec_once_capacity(job, receivable_msat, spendable_msat)
            == spec_once_capacity(job, receivable_msat, other_msat),
{
}

/// Whether the channel can move a one-off job's total amount.
pub fn once_capacity(job: &Job, receivable_msat: u64, spendable_msat: u64) -> (r: Result<(), OnceRefusal>)
    requires
        job.onceamount_msat is Some,
    ensures
        r == spec_once_capacity(*job, receivable_msat, spendable_msat),
{
    let total = match job.onceamount_msat {
        Some(t) => t,
        None => 0,
    };
    let can = match job.sat_direction {
        SatDirection::Pull => receivable_msat,
        SatDirection::Push => spendable_msat,
    };
    if can < total {
        Err(OnceRefusal::NotEnoughCapacity(can))
    } else {
        Ok(())
    }
}

/// Whether tasks `i` to `count` of channel `chan` admit a one-off job
/// to start: any existing one must be a one-off task that does not run.
pub open spec fn once_admission_from(s: Seq<(TaskIdentifier, Task)>, chan: u64, i: int, count: int) -> Result<(), OnceRefusal>
    decreases count + 1 - i,
{
    if i < 1 || i > count || i > u16::MAX {
        Ok(())
    } else {
        match task_index(s, TaskIdentifier { short_channel_id: chan, task_id: i as u16 }) {
            Some(k) => if !s[k].1.once {
                Err(OnceRefusal::NotAOnceJob)
            } else if s[k].1.active {
                Err(OnceRefusal::OnceRunning)
            } else {
                once_admission_from(s, chan, i + 1, count)
            },
            None => once_admission_from(s, chan, i + 1, count),
        }
    }
}

/// Whether a one-off job of `count` tasks may start on channel `chan`.
pub fn once_admission(tasks: &Tasks, chan: u64, count: u16) -> (r: Result<(), OnceRefusal>)
    requires
        tasks.wf(),
    ensures
        r == once_admission_from(tasks@, chan, 1, count as int),
{
    let mut i: u32 = 1;
    while i <= count as u32
        invariant
            tasks.wf(),
            1 <= i <= count as int + 1,
            once_admission_from(tasks@, chan, i as int, count as int) == once_admission_from(tasks@, chan, 1, count as int),
        decreases count as int + 1 - i,
    {
        let id = TaskIdentifier::new(chan, i as u16);
        match tasks.get_task(&id) {
            Some(t) => {
                proof {
                    let k = choose|k: int| 0 <= k < tasks@.len() && tasks@[k] == (id, t);
                    assert(tasks@[k].0 == id);
                    crate::tasks::lemma_task_index_at(tasks, k);
                }
                if !t.once {
                    return Err(OnceRefusal::NotAOnceJob);
                }
                if t.active {
                    return Err(OnceRefusal::OnceRunning);
                }
            },
            None => {},
        }
        i = i + 1;
    }
    Ok(())
}

/// What a one-off task does next.
#[derive(Debug, Clone, Copy, PartialEq, Eq, Structural)]
pub enum OnceStep {
    /// It was told to stop.
    Stop,
    /// Another rebalance would go past the total: it is done.
    Done,
    /// It tries another rebalance, counted in advance.
    Go,
}

/// The next step of a one-off task that has counted `total` of `onceamount`
/// so far, and the count after it.
pub open spec fn spec_once_step(total: u64, amount: u64, onceamount: u64, should_stop: bool) -> (OnceStep, u64) {
    if should_stop {
        (OnceStep::Stop, total)
    } else if total + amount > onceamount {
        (OnceStep::Done, total)
    } else {
        (OnceStep::Go, (total + amount) as u64)
    }
}

/// The next step of a one-off task, and the amount counted after it.
pub fn once_step(total: u64, amount: u64, onceamount: u64, should_stop: bool) -> (r: (OnceStep, u64))
    ensures
        r == spec_once_step(total, amount, onceamount, should_stop),
        total <= onceamount ==> r.1 <= onceamount,
{
    if should_stop {
        (OnceStep::Stop, total)
    } else if total as u128 + amount as u128 > onceamount as u128 {
        (OnceStep::Done, total)
    } else {
        (OnceStep::Go, total + amount)
    }
}

/// The count of a one-off job after a rebalance counted in advance: taken
/// back when it moved nothing or failed (`moved` is `None`).
pub open spec fn spec_once_settle(total: u64, amount: u64, moved: Option<u64>) -> u64 {
    if moved == Some(0u64) || moved is None { (total - amount) as u64 } else { total }
}

/// The count of a one-off job after a rebalance counted in advance: taken
/// back when it moved nothing or failed.
pub fn once_settle(total: u64, amount: u64, moved: Option<u64>) -> (r: u64)
    requires
        total >= amount,
    ensures
        r == spec_once_settle(total, amount, moved),
{
    match moved {
        Some(m) => {
            if m == 0 {
                total - amount
            } else {
                total
            }
        },
        None => total - amount,
    }
}

/// Whether one of the first `n` jobs is on channel `c` in direction `d`.
pub open spec fn job_on(jobs: Seq<(u64, SatDirection)>, n: int, c: u64, d: SatDirection) -> bool {
    exists|i: int| 0 <= i < n && i < jobs.len() && #[trigger] jobs[i] == (c, d)
}

/// The excluded channels of each direction, from the jobs' channels (a
/// pull job's channel is kept out of other pull jobs, a push job's out of
/// other push jobs) and the static excepts (kept out of both).
pub open spec fn spec_job_excludes(jobs: Seq<(u64, SatDirection)>, static_excepts: Seq<u64>) -> (Set<u64>, Set<u64>) {
    (
        Set::new(|c: u64| job_on(jobs, jobs.len() as int, c, SatDirection::Pull) || static_excepts.contains(c)),
        Set::new(|c: u64| job_on(jobs, jobs.len() as int, c, SatDirection::Push) || static_excepts.contains(c)),
    )
}

proof fn lemma_set_with_contains(s: Seq<u64>, x: u64, y: u64)
    ensures
        set_with(s, x).contains(y) <==> (s.contains(y) || y == x),
{
    if s.contains(y) {
        let t = choose|t: int| 0 <= t < s.len() && s[t] == y;
        assert(set_with(s, x)[t] == y);
    }
    if y == x && !s.contains(x) {
        assert(set_with(s, x)[s.len() as int] == y);
    }
    if set_with(s, x).contains(y) && !s.contains(x) {
        let t = choose|t: int| 0 <= t < set_with(s, x).len() && set_with(s, x)[t] == y;
        if t < s.len() {
            assert(s[t] == y);
        }
    }
}

proof fn lemma_job_on_step(jobs: Seq<(u64, SatDirection)>, n: int, c: u64, d: SatDirection)
    requires
        0 <= n < jobs.len(),
    ensures
        job_on(jobs, n + 1, c, d) <==> (job_on(jobs, n, c, d) || jobs[n] == (c, d)),
{
    if job_on(jobs, n + 1, c, d) {
        let i = choose|i: int| 0 <= i < n + 1 && i < jobs.len() && #[trigger] jobs[i] == (c, d);
        if i < n {
            assert(job_on(jobs, n, c, d));
        }
    }
    if job_on(jobs, n, c, d) {
        let i = choose|i: int| 0 <= i < n && i < jobs.len() && #[trigger] jobs[i] == (c, d);
        assert(jobs[i] == (c, d));
    }
    if jobs[n] == (c, d) {
        assert(jobs[n] == (c, d));
    }
}

proof fn lemma_prefix_contains(s: Seq<u64>, k: int, x: u64)
    requires
        0 <= k < s.len(),
    ensures
        s.subrange(0, k + 1).contains(x) <==> (s.subrange(0, k).contains(x) || s[k] == x),
{
    let pre = s.subrange(0, k);
    let next = s.subrange(0, k + 1);
    if next.contains(x) {
        let t = choose|t: int| 0 <= t < next.len() && next[t] == x;
        if t < k {
            assert(pre[t] == x);
        }
    }
    if pre.contains(x) {
        let t = choose|t: int| 0 <= t < pre.len() && pre[t] == x;
        assert(next[t] == x);
    }
    if s[k] == x {
        assert(next[k] == x);
    }
}

/// The excluded channels of each direction from the jobs and the static
/// excepts, each once.
pub fn job_excludes(jobs: &[(u64, SatDirection)], static_excepts: &[u64]) -> (r: (Vec<u64>, Vec<u64>))
    ensures
        r.0@.to_set() == spec_job_excludes(jobs@, static_excepts@).0,
        r.1@.to_set() == spec_job_excludes(jobs@, static_excepts@).1,
{
    let mut pull: Vec<u64> = Vec::new();
    let mut push: Vec<u64> = Vec::new();
    let mut i: usize = 0;
    while i < jobs.len()
        invariant
            i <= jobs@.len(),
            forall|c: u64| #[trigger] pull@.contains(c) <==> job_on(jobs@, i as int, c, SatDirection::Pull),
            forall|c: u64| #[trigger] push@.contains(c) <==> job_on(jobs@, i as int, c, SatDirection::Push),
        decreases jobs@.len() - i,
    {
        let (c, d) = jobs[i];
        let ghost old_pull = pull@;
        let ghost old_push = push@;
        match d {
            SatDirection::Pull => add_scid(&mut pull, c),
            SatDirection::Push => add_scid(&mut push, c),
        }
        proof {
            assert forall|x: u64| #[trigger] pull@.contains(x) <==> job_on(jobs@, i + 1, x, SatDirection::Pull) by {
                lemma_job_on_step(jobs@, i as int, x, SatDirection::Pull);
                lemma_set_with_contains(old_pull, c, x);
            }
            assert forall|x: u64| #[trigger] push@.contains(x) <==> job_on(jobs@, i + 1, x, SatDirection::Push) by {
                lemma_job_on_step(jobs@, i as int, x, SatDirection::Push);
                lemma_set_with_contains(old_push, c, x);
            }
        }
        i = i + 1;
    }
    let mut k: usize = 0;
    while k < static_excepts.len()
        invariant
            k <= static_excepts@.len(),
            forall|c: u64| #[trigger] pull@.contains(c) <==> job_on(jobs@, jobs@.len() as int, c, SatDirection::Pull)
                || static_excepts@.subrange(0, k as int).contains(c),
            forall|c: u64| #[trigger] push@.contains(c) <==> job_on(jobs@, jobs@.len() as int, c, SatDirection::Push)
                || static_excepts@.subrange(0, k as int).contains(c),
        decreases static_excepts@.len() - k,
    {
        let c = static_excepts[k];
        let ghost old_pull = pull@;
        let ghost old_push = push@;
        add_scid(&mut pull, c);
        add_scid(&mut push, c);
        proof {
            assert forall|x: u64| #[trigger] pull@.contains(x) <==> job_on(jobs@, jobs@.len() as int, x, SatDirection::Pull)
                || static_excepts@.subrange(0, k + 1).contains(x) by {
                lemma_prefix_contains(static_excepts@, k as int, x);
                lemma_set_with_contains(old_pull, c, x);
            }
            assert forall|x: u64| #[trigger] push@.contains(x) <==> job_on(jobs@, jobs@.len() as int, x, SatDirection::Push)
                || static_excepts@.subrange(0, k + 1).contains(x) by {
                lemma_prefix_contains(static_excepts@, k as int, x);
                lemma_set_with_contains(old_push, c, x);
            }
        }
        k = k + 1;
    }
    proof {
        assert(static_excepts@.subrange(0, static_excepts@.len() as int) =~= static_excepts@);
        assert(pull@.to_set() =~= spec_job_excludes(jobs@, static_excepts@).0);
        assert(push@.to_set() =~= spec_job_excludes(jobs@, static_excepts@).1);
    }
    (pull, push)
}

} // verus!
