use sling::commands::{
    delete_args, except_chan, except_peer, exceptchan_args, go_args, jobsettings_args, once_admission,
    once_capacity, once_settle, once_step, stats_args, stop_args, task_count, ArgError, DeleteTarget,
    ExceptError, ExceptOutcome, OnceRefusal, OnceStep, RpcArgs,
};
use sling::model::{JobMessage, PeerChannel, PubKeyBytes, TaskIdentifier};
use sling::parse::JsonArg;
use sling::tasks::{Task, Tasks};
use sling::{Job, SatDirection};

fn text(s: &str) -> JsonArg {
    JsonArg::Str(s.to_string())
}

fn object(entries: Vec<(&str, JsonArg)>) -> RpcArgs {
    RpcArgs::Object(entries.into_iter().map(|(k, v)| (k.to_string(), v)).collect())
}

fn scid(block: u64, tx: u64, out: u64) -> u64 {
    (block << 40) | (tx << 16) | out
}

fn channel(short_channel_id: u64, peer: u8) -> PeerChannel {
    PeerChannel {
        short_channel_id: Some(short_channel_id),
        direction: Some(0),
        peer_id: PubKeyBytes::new([peer; 33]),
        peer_connected: true,
        normal: true,
        private: Some(false),
        total_msat: 1_000_000_000,
        to_us_msat: 500_000_000,
        spendable_msat: 300_000_000,
        receivable_msat: 200_000_000,
        their_reserve_msat: 10_000_000,
        our_reserve_msat: 10_000_000,
        fee_base_msat: 0,
        fee_proportional_millionths: 100,
        remote_fee_base_msat: None,
        remote_fee_proportional_millionths: None,
        htlc_count: 0,
        local_alias: None,
        remote_alias: None,
    }
}

#[test]
fn stop_args_shapes() {
    assert_eq!(stop_args(&RpcArgs::Array(vec![])), Ok(None));
    assert_eq!(stop_args(&RpcArgs::Array(vec![text("1x2x3")])), Ok(Some(scid(1, 2, 3))));
    assert_eq!(stop_args(&RpcArgs::Array(vec![text("1x2x3"), text("1x2x4")])), Err(ArgError::WrongCount));
    assert_eq!(stop_args(&RpcArgs::Array(vec![JsonArg::Bool(true)])), Err(ArgError::NotAString));
    assert_eq!(stop_args(&object(vec![("scid", text("bad"))])), Err(ArgError::MalformedScid));
    assert_eq!(stop_args(&object(vec![("other", text("x"))])), Ok(None));
    assert_eq!(stop_args(&RpcArgs::Other), Err(ArgError::NotArrayOrObject));
}

#[test]
fn go_args_object_needs_scid_or_nothing() {
    assert_eq!(go_args(&object(vec![])), Ok(None));
    assert_eq!(go_args(&object(vec![("other", text("x"))])), Err(ArgError::NotAString));
    assert_eq!(go_args(&object(vec![("scid", text("1x2x3"))])), Ok(Some(scid(1, 2, 3))));
}

#[test]
fn jobsettings_args_shapes() {
    assert_eq!(jobsettings_args(&object(vec![])), Ok(None));
    assert_eq!(jobsettings_args(&object(vec![("job", text("1x2x3"))])), Err(ArgError::MissingKey));
    assert_eq!(jobsettings_args(&RpcArgs::Array(vec![text("1x2x3")])), Ok(Some(scid(1, 2, 3))));
}

#[test]
fn delete_args_all_or_one() {
    assert_eq!(delete_args(&RpcArgs::Array(vec![text("all")])), Ok(DeleteTarget::All));
    assert_eq!(delete_args(&object(vec![("job", text("1x2x3"))])), Ok(DeleteTarget::One(scid(1, 2, 3))));
    assert_eq!(delete_args(&RpcArgs::Array(vec![])), Err(ArgError::WrongCount));
    assert_eq!(delete_args(&RpcArgs::Array(vec![text("nope")])), Err(ArgError::MalformedScid));
}

#[test]
fn stats_args_shapes() {
    assert_eq!(stats_args(&RpcArgs::Array(vec![])), Ok((None, false)));
    assert_eq!(stats_args(&RpcArgs::Array(vec![JsonArg::Bool(true)])), Ok((None, true)));
    assert_eq!(stats_args(&RpcArgs::Array(vec![text("1x2x3"), JsonArg::Bool(true)])), Ok((Some(scid(1, 2, 3)), true)));
    assert_eq!(stats_args(&RpcArgs::Array(vec![text("1x2x3"), text("yes")])), Err(ArgError::NotABool));
    assert_eq!(stats_args(&object(vec![("json", JsonArg::Bool(true))])), Ok((None, true)));
}

#[test]
fn exceptchan_args_shapes() {
    let (c, s) = exceptchan_args(&RpcArgs::Array(vec![text("list")])).unwrap();
    assert_eq!(c, "list");
    assert_eq!(s, None);
    let (c, s) = exceptchan_args(&RpcArgs::Array(vec![text("add"), text("1x2x3")])).unwrap();
    assert_eq!(c, "add");
    assert_eq!(s, Some(scid(1, 2, 3)));
    assert_eq!(exceptchan_args(&RpcArgs::Array(vec![text("add")])).err(), Some(ArgError::WrongCount));
}

#[test]
fn except_chan_add_and_remove() {
    let mut pull = vec![];
    let mut push = vec![];
    let mut stat = vec![];
    assert_eq!(except_chan("add", Some(5), &mut pull, &mut push, &mut stat, &[], &[]), Ok(ExceptOutcome::Changed));
    assert_eq!((pull.clone(), push.clone(), stat.clone()), (vec![5], vec![5], vec![5]));
    assert_eq!(except_chan("add", Some(5), &mut pull, &mut push, &mut stat, &[], &[]), Err(ExceptError::AlreadyExcepted));
    assert_eq!(except_chan("remove", Some(5), &mut pull, &mut push, &mut stat, &[], &[]), Ok(ExceptOutcome::Changed));
    assert!(pull.is_empty() && push.is_empty() && stat.is_empty());
    assert_eq!(except_chan("remove", Some(5), &mut pull, &mut push, &mut stat, &[], &[]), Err(ExceptError::NotExcepted));
    assert_eq!(except_chan("add", Some(6), &mut pull, &mut push, &mut stat, &[6], &[]), Err(ExceptError::HasJob));
    assert_eq!(except_chan("add", Some(7), &mut pull, &mut push, &mut stat, &[], &[7]), Err(ExceptError::OwnChannel));
    assert_eq!(except_chan("list", None, &mut pull, &mut push, &mut stat, &[], &[]), Ok(ExceptOutcome::List));
    assert_eq!(except_chan("show", None, &mut pull, &mut push, &mut stat, &[], &[]), Err(ExceptError::UnknownCommand));
}

#[test]
fn except_peer_rules() {
    let me = PubKeyBytes::new([1; 33]);
    let bob = PubKeyBytes::new([2; 33]);
    let carol = PubKeyBytes::new([3; 33]);
    let chans = vec![channel(50, 3)];
    let mut excl = vec![];
    let mut stat = vec![];
    assert_eq!(except_peer("add", Some(me), &me, &mut excl, &mut stat, &[], &chans), Err(ExceptError::Ourselves));
    assert_eq!(except_peer("add", Some(carol), &me, &mut excl, &mut stat, &[50], &chans), Err(ExceptError::HasJob));
    assert_eq!(except_peer("add", Some(bob), &me, &mut excl, &mut stat, &[50], &chans), Ok(ExceptOutcome::Changed));
    assert_eq!(excl, vec![bob]);
    assert_eq!(except_peer("remove", Some(bob), &me, &mut excl, &mut stat, &[], &chans), Ok(ExceptOutcome::Changed));
    assert!(excl.is_empty() && stat.is_empty());
}

#[test]
fn task_count_caps_push_jobs() {
    let mut job = Job::new(SatDirection::Push, 1_000, Some(0), 10);
    job.add_paralleljobs(8);
    assert_eq!(task_count(&job, 1, 5), 5);
    let pull = Job::new(SatDirection::Pull, 1_000, Some(0), 10);
    assert_eq!(task_count(&pull, 3, 1), 3);
}

#[test]
fn once_checks() {
    let mut job = Job::new(SatDirection::Pull, 1_000, Some(0), 10);
    job.add_onceamount_msat(300_000_000);
    assert_eq!(once_capacity(&job, 200_000_000, 900_000_000), Err(OnceRefusal::NotEnoughCapacity(200_000_000)));
    assert_eq!(once_capacity(&job, 300_000_000, 0), Ok(()));
    let mut tasks = Tasks::new();
    assert_eq!(once_admission(&tasks, 10, 2), Ok(()));
    tasks.insert_task(10, 2, Task::new(10, 2, JobMessage::Starting, false, PubKeyBytes::new([9; 33]))).unwrap();
    assert_eq!(once_admission(&tasks, 10, 2), Err(OnceRefusal::NotAOnceJob));
    let mut tasks = Tasks::new();
    tasks.insert_task(10, 1, Task::new(10, 1, JobMessage::Starting, true, PubKeyBytes::new([9; 33]))).unwrap();
    assert_eq!(once_admission(&tasks, 10, 2), Err(OnceRefusal::OnceRunning));
    tasks.set_active(&TaskIdentifier::new(10, 1), false);
    assert_eq!(once_admission(&tasks, 10, 2), Ok(()));
}

#[test]
fn once_progress() {
    assert_eq!(once_step(0, 100, 300, false), (OnceStep::Go, 100));
    assert_eq!(once_step(200, 100, 300, false), (OnceStep::Go, 300));
    assert_eq!(once_step(300, 100, 300, false), (OnceStep::Done, 300));
    assert_eq!(once_step(0, 100, 300, true), (OnceStep::Stop, 0));
    assert_eq!(once_settle(300, 100, Some(0)), 200);
    assert_eq!(once_settle(300, 100, None), 200);
    assert_eq!(once_settle(300, 100, Some(100)), 300);
}
