//! The command dispatcher: authentication gating, subscribed-mode
//! restriction, transaction queueing, and the routing of every command
//! to its verified operation.  The dispatcher never touches a socket:
//! it returns the replies to write and the actions (propagation,
//! wake-ups, blocking, promotion) the connection driver must carry out.

use vstd::prelude::*;

use crate::auth::AuthState;
use crate::auth::Users;
use crate::bytesutil::bytes_clone;
use crate::bytesutil::bytes_eq_slice;
use crate::bytesutil::spec_upper;
use crate::bytesutil::to_upper;
use crate::list::BlockedClients;
use crate::pubsub::ChannelRegistry;
use crate::repl::ReplicaTracker;
use crate::replies::noauth_msg;
use crate::replies::reply_noauth;
use crate::resp::RespData;
use crate::resp::RespValue;
use crate::resp::resp_seq_view;
use crate::resp::resp_view;
use crate::store::Db;
use vstd::string::StringSliceAdditionalSpecFns;

verus! {

/// The immutable boot configuration.
pub struct ServerConfig {
    pub dir: Vec<u8>,
    pub dbfilename: Vec<u8>,
    pub port: Vec<u8>,
    pub replicaof: Option<Vec<u8>>,
    pub replication_id: Vec<u8>,
}

/// The shared server state one command runs against.
pub struct ServerState {
    pub db: Db,
    pub blocked: BlockedClients,
    pub channels: ChannelRegistry,
    pub users: Users,
    pub replicas: ReplicaTracker,
}

impl ServerState {
    /// All component invariants.
    pub open spec fn wf(self) -> bool {
        &&& self.db.wf()
        &&& self.channels.wf()
        &&& self.users.wf()
    }

    /// A fresh server state.
    pub fn new() -> (r: ServerState)
        ensures
            r.wf(),
    {
        ServerState {
            db: Db::new(),
            blocked: BlockedClients::new(),
            channels: ChannelRegistry::new(),
            users: Users::new_default(),
            replicas: ReplicaTracker::new(),
        }
    }
}

/// Per-connection command state: the channels this client subscribed
/// to, the open transaction, and the client's id in the registries.
pub struct ClientState {
    pub client_id: u64,
    pub subscribed_channels: Vec<Vec<u8>>,
    pub in_transaction: bool,
    pub queued_commands: Vec<RespValue>,
}

impl ClientState {
    /// A fresh connection.
    pub fn new(client_id: u64) -> (r: ClientState)
        ensures
            r.client_id == client_id,
            r.subscribed_channels@.len() == 0,
            r.in_transaction == false,
            r.queued_commands@.len() == 0,
    {
        ClientState {
            client_id,
            subscribed_channels: Vec::new(),
            in_transaction: false,
            queued_commands: Vec::new(),
        }
    }

    /// Is this connection in subscribed mode?
    pub fn is_subscribed(&self) -> (r: bool)
        ensures
            r == (self.subscribed_channels@.len() > 0),
    {
        self.subscribed_channels.len() > 0
    }
}

/// What the connection driver must do after the replies are written.
pub enum Action {
    /// Deliver `[key, value]` to the blocked client's mailbox.
    WakeBlpop { client: u64, key: Vec<u8>, value: Vec<u8> },
    /// Broadcast that a stream changed.
    NotifyStream,
    /// Try a non-blocking send of the message to each subscriber.
    PublishTo { clients: Vec<u64>, channel: Vec<u8>, message: Vec<u8> },
    /// The client is registered as a `BLPOP` waiter: block on its
    /// mailbox for up to `timeout_ms` (zero blocks forever).
    Block { key: Vec<u8>, timeout_ms: u64 },
    /// Block on the stream broadcast, re-checking these streams.
    BlockXread { keys: Vec<Vec<u8>>, ids: Vec<(u64, u64)>, timeout_ms: u64 },
    /// Promote this connection to a replica.
    BecomeReplica,
    /// Send `REPLCONF GETACK *` to every replica and count replies
    /// against the snapshot.
    Getacks { expected: Vec<i64>, timeout_ms: u64 },
    /// Geographic commands carry their raw arguments out to the caller,
    /// which owns the floating-point geohash math.
    GeoAdd { key: Vec<u8>, member: Vec<u8>, lon: Vec<u8>, lat: Vec<u8>, frame: Option<Vec<u8>> },
    GeoPos { key: Vec<u8>, members: Vec<Vec<u8>> },
    GeoDist { key: Vec<u8>, m1: Vec<u8>, m2: Vec<u8> },
    GeoSearch { key: Vec<u8>, lon: Vec<u8>, lat: Vec<u8>, radius: Vec<u8> },
}

/// The result of one dispatched command.
pub struct Outcome {
    pub replies: Vec<RespValue>,
    /// Raw bytes to write after the replies (the snapshot image after
    /// `FULLRESYNC`).
    pub raw: Option<Vec<u8>>,
    pub action: Option<Action>,
    /// Encoded frames to send to every replica, in order; the byte
    /// counters are already advanced for each.
    pub propagated: Vec<Vec<u8>>,
}

/// Does the outcome defer its reply (blocking, polling, or work the
/// caller owns)?
pub open spec fn outcome_blocks(r: Outcome) -> bool {
    r.action matches Some(a) && (a is Block || a is BlockXread || a is Getacks || a is GeoAdd
        || a is GeoPos || a is GeoDist || a is GeoSearch)
}

/// Exactly one reply per command, unless the client blocked.
pub open spec fn one_reply(r: Outcome) -> bool {
    if outcome_blocks(r) {
        r.replies@.len() == 0
    } else {
        r.replies@.len() == 1
    }
}

/// An outcome holding just one reply.
fn reply_outcome(v: RespValue) -> (r: Outcome)
    ensures
        r.replies@.len() == 1,
        resp_view(r.replies@[0]) == resp_view(v),
        r.raw is None,
        r.action is None,
        r.propagated@.len() == 0,
        one_reply(r),
{
    let mut replies: Vec<RespValue> = Vec::new();
    replies.push(v);
    Outcome { replies, raw: None, action: None, propagated: Vec::new() }
}

/// An outcome holding one reply and an action.
fn reply_action_outcome(v: RespValue, a: Action) -> (r: Outcome)
    requires
        !(a is Block),
        !(a is BlockXread),
        !(a is Getacks),
        !(a is GeoAdd),
        !(a is GeoPos),
        !(a is GeoDist),
        !(a is GeoSearch),
    ensures
        r.replies@.len() == 1,
        resp_view(r.replies@[0]) == resp_view(v),
        r.raw is None,
        r.action == Some(a),
        r.propagated@.len() == 0,
        one_reply(r),
{
    let mut replies: Vec<RespValue> = Vec::new();
    replies.push(v);
    Outcome { replies, raw: None, action: Some(a), propagated: Vec::new() }
}

/// An outcome holding no reply yet: the client waits on the action.
fn blocked_outcome(a: Action) -> (r: Outcome)
    requires
        a is Block || a is BlockXread || a is Getacks || a is GeoAdd || a is GeoPos || a
            is GeoDist || a is GeoSearch,
    ensures
        r.replies@.len() == 0,
        r.raw is None,
        r.action == Some(a),
        r.propagated@.len() == 0,
        one_reply(r),
{
    Outcome { replies: Vec::new(), raw: None, action: Some(a), propagated: Vec::new() }
}

/// The bytes of the i-th argument: bulk and simple strings carry
/// payloads; a missing or non-string argument reads as empty.
pub open spec fn spec_arg(items: Seq<RespData>, i: int) -> Seq<u8> {
    if 0 <= i < items.len() {
        match items[i] {
            RespData::BulkString(b) => b,
            RespData::SimpleString(b) => b,
            _ => Seq::empty(),
        }
    } else {
        Seq::empty()
    }
}

/// Copy the i-th argument's bytes.
pub fn arg_bytes(items: &Vec<RespValue>, i: usize) -> (r: Vec<u8>)
    ensures
        r@ == spec_arg(resp_seq_view(items@), i as int),
{
    proof {
        crate::resp::lemma_resp_seq_view(items@);
    }
    if i < items.len() {
        match &items[i] {
            RespValue::BulkString(b) => bytes_clone(b),
            RespValue::SimpleString(b) => bytes_clone(b),
            _ => Vec::new(),
        }
    } else {
        Vec::new()
    }
}

/// The i-th argument as a signed number, if it parses.
pub fn arg_int(items: &Vec<RespValue>, i: usize) -> (r: Option<i64>)
    ensures
        ({
            let a = spec_arg(resp_seq_view(items@), i as int);
            r == if crate::bytesutil::valid_i64_bytes(a) {
                Some(crate::bytesutil::i64_val(a) as i64)
            } else {
                Option::<i64>::None
            }
        }),
{
    let b = arg_bytes(items, i);
    match crate::bytesutil::parse_i64(&b) {
        Some(n) => Some(n),
        None => None,
    }
}

/// The commands allowed while a connection is in subscribed mode.
pub open spec fn spec_allowed_subscribed(c: Seq<u8>) -> bool {
    ||| c == "SUBSCRIBE".spec_bytes()
    ||| c == "UNSUBSCRIBE".spec_bytes()
    ||| c == "PSUBSCRIBE".spec_bytes()
    ||| c == "PUNSUBSCRIBE".spec_bytes()
    ||| c == "PING".spec_bytes()
    ||| c == "QUIT".spec_bytes()
    ||| c == "RESET".spec_bytes()
}

/// Is the (upper-cased) command allowed in subscribed mode?
pub fn is_allowed_in_subscribed_mode(cmd: &Vec<u8>) -> (r: bool)
    ensures
        r == spec_allowed_subscribed(cmd@),
{
    bytes_eq_slice(cmd, "SUBSCRIBE".as_bytes()) || bytes_eq_slice(cmd, "UNSUBSCRIBE".as_bytes())
        || bytes_eq_slice(cmd, "PSUBSCRIBE".as_bytes()) || bytes_eq_slice(
        cmd,
        "PUNSUBSCRIBE".as_bytes(),
    ) || bytes_eq_slice(cmd, "PING".as_bytes()) || bytes_eq_slice(cmd, "QUIT".as_bytes())
        || bytes_eq_slice(cmd, "RESET".as_bytes())
}

/// The milliseconds a decimal seconds timeout denotes: the integer
/// part scaled, plus the first three fraction digits, saturating; a
/// negative value reads as zero.
pub open spec fn spec_timeout_ms(parts: (bool, nat, Seq<u8>)) -> u64 {
    if parts.0 {
        0
    } else {
        let d0: int = if parts.2.len() > 0 {
            parts.2[0] as int
        } else {
            0
        };
        let d1: int = if parts.2.len() > 1 {
            parts.2[1] as int
        } else {
            0
        };
        let d2: int = if parts.2.len() > 2 {
            parts.2[2] as int
        } else {
            0
        };
        let raw = parts.1 * 1000 + d0 * 100 + d1 * 10 + d2;
        if raw > u64::MAX {
            u64::MAX
        } else {
            raw as u64
        }
    }
}

/// A `BLPOP`/`WAIT` style timeout given in seconds as a decimal string:
/// its value in milliseconds, saturating, taking the first three
/// fraction digits; an unparseable timeout reads as zero (block
/// forever).
pub fn timeout_ms_from_bytes(b: &Vec<u8>) -> (r: u64)
    ensures
        crate::score::valid_score_bytes(b@) ==> r == spec_timeout_ms(
            crate::score::spec_score_parts(b@),
        ),
        !crate::score::valid_score_bytes(b@) ==> r == 0,
{
    match crate::score::score_parse(b) {
        None => 0,
        Some(sc) => {
            if sc.neg {
                return 0;
            }
            let mut ms: u128 = sc.int_part as u128 * 1000;
            if sc.frac.len() > 0 {
                ms = ms + sc.frac[0] as u128 * 100;
            }
            if sc.frac.len() > 1 {
                ms = ms + sc.frac[1] as u128 * 10;
            }
            if sc.frac.len() > 2 {
                ms = ms + sc.frac[2] as u128;
            }
            if ms > u64::MAX as u128 {
                u64::MAX
            } else {
                ms as u64
            }
        },
    }
}

/// The `["message", channel, payload]` push a subscriber receives.
pub fn make_pubsub_message(channel: &Vec<u8>, message: &Vec<u8>) -> (r: RespValue)
    ensures
        resp_view(r) == RespData::Array(
            seq![
                RespData::BulkString("message".spec_bytes()),
                RespData::BulkString(channel@),
                RespData::BulkString(message@),
            ],
        ),
{
    let mut items: Vec<RespValue> = Vec::new();
    items.push(RespValue::BulkString(crate::bytesutil::str_bytes("message")));
    items.push(RespValue::BulkString(bytes_clone(channel)));
    items.push(RespValue::BulkString(bytes_clone(message)));
    proof {
        crate::resp::lemma_resp_seq_view(items@);
        assert(items@.len() == 3);
        assert(resp_view(items@[0]) == RespData::BulkString("message".spec_bytes()));
        assert(resp_view(items@[1]) == RespData::BulkString(channel@));
        assert(resp_view(items@[2]) == RespData::BulkString(message@));
        assert(resp_seq_view(items@) =~= seq![
            RespData::BulkString("message".spec_bytes()),
            RespData::BulkString(channel@),
            RespData::BulkString(message@),
        ]);
    }
    RespValue::Array(items)
}

/// The `[kind, channel, count]` reply to `SUBSCRIBE` and `UNSUBSCRIBE`.
fn sub_reply(kind: &str, channel: &Vec<u8>, count: i64) -> (r: RespValue)
    ensures
        resp_view(r) == RespData::Array(
            seq![
                RespData::BulkString(kind.spec_bytes()),
                RespData::BulkString(channel@),
                RespData::Integer(count as int),
            ],
        ),
{
    let mut items: Vec<RespValue> = Vec::new();
    items.push(RespValue::BulkString(crate::bytesutil::str_bytes(kind)));
    items.push(RespValue::BulkString(bytes_clone(channel)));
    items.push(RespValue::Integer(count));
    proof {
        crate::resp::lemma_resp_seq_view(items@);
        assert(items@.len() == 3);
        assert(resp_view(items@[0]) == RespData::BulkString(kind.spec_bytes()));
        assert(resp_view(items@[1]) == RespData::BulkString(channel@));
        assert(resp_view(items@[2]) == RespData::Integer(count as int));
        assert(resp_seq_view(items@) =~= seq![
            RespData::BulkString(kind.spec_bytes()),
            RespData::BulkString(channel@),
            RespData::Integer(count as int),
        ]);
    }
    RespValue::Array(items)
}

/// Does this byte vector sit in the list?
fn vec_contains_bytes(l: &Vec<Vec<u8>>, b: &Vec<u8>) -> (r: bool)
    ensures
        r <==> exists|i: int| 0 <= i < l@.len() && (#[trigger] l@[i])@ == b@,
{
    let mut i: usize = 0;
    while i < l.len()
        invariant
            i <= l@.len(),
            forall|j: int| 0 <= j < i ==> (#[trigger] l@[j])@ != b@,
        decreases l@.len() - i,
    {
        if crate::bytesutil::bytes_eq(&l[i], b) {
            return true;
        }
        i += 1;
    }
    false
}

/// Remove every occurrence of the byte vector from the list.
fn vec_remove_bytes(l: &mut Vec<Vec<u8>>, b: &Vec<u8>)
    ensures
        forall|i: int| 0 <= i < final(l)@.len() ==> (#[trigger] final(l)@[i])@ != b@,
        final(l)@.len() <= old(l)@.len(),
{
    let mut kept: Vec<Vec<u8>> = Vec::new();
    let mut i: usize = 0;
    while i < l.len()
        invariant
            i <= l@.len(),
            l@ == old(l)@,
            kept@.len() <= i,
            forall|j: int| 0 <= j < kept@.len() ==> (#[trigger] kept@[j])@ != b@,
        decreases l@.len() - i,
    {
        if !crate::bytesutil::bytes_eq(&l[i], b) {
            kept.push(bytes_clone(&l[i]));
        }
        i += 1;
    }
    *l = kept;
}

/// `CONFIG GET dir|dbfilename`: the `[name, value]` pair from the boot
/// configuration; other subcommands answer `+OK`, other keys the null
/// bulk.
fn handle_config(items: &Vec<RespValue>, config: &ServerConfig) -> (r: RespValue)
    ensures
        ({
            let iv = resp_seq_view(items@);
            let sub = spec_upper(spec_arg(iv, 1));
            if sub == "GET".spec_bytes() {
                if iv.len() == 3 && spec_upper(spec_arg(iv, 2)) == "DIR".spec_bytes() {
                    resp_view(r) == RespData::Array(
                        seq![
                            RespData::BulkString("dir".spec_bytes()),
                            RespData::BulkString(config.dir@),
                        ],
                    )
                } else if iv.len() == 3 && spec_upper(spec_arg(iv, 2))
                    == "DBFILENAME".spec_bytes() {
                    resp_view(r) == RespData::Array(
                        seq![
                            RespData::BulkString("dbfilename".spec_bytes()),
                            RespData::BulkString(config.dbfilename@),
                        ],
                    )
                } else {
                    resp_view(r) == RespData::NullBulkString
                }
            } else {
                resp_view(r) == RespData::SimpleString(crate::replies::ok_msg())
            }
        }),
{
    proof {
        crate::resp::lemma_resp_seq_view(items@);
    }
    let sub = to_upper(&arg_bytes(items, 1));
    if bytes_eq_slice(&sub, "GET".as_bytes()) {
        if items.len() == 3 {
            let key = to_upper(&arg_bytes(items, 2));
            if bytes_eq_slice(&key, "DIR".as_bytes()) {
                let mut pair: Vec<RespValue> = Vec::new();
                pair.push(RespValue::BulkString(crate::bytesutil::str_bytes("dir")));
                pair.push(RespValue::BulkString(bytes_clone(&config.dir)));
                proof {
                    crate::resp::lemma_resp_seq_view(pair@);
                    assert(pair@.len() == 2);
                    assert(resp_view(pair@[0]) == RespData::BulkString("dir".spec_bytes()));
                    assert(resp_view(pair@[1]) == RespData::BulkString(config.dir@));
                    assert(resp_seq_view(pair@) =~= seq![
                        RespData::BulkString("dir".spec_bytes()),
                        RespData::BulkString(config.dir@),
                    ]);
                }
                RespValue::Array(pair)
            } else if bytes_eq_slice(&key, "DBFILENAME".as_bytes()) {
                let mut pair: Vec<RespValue> = Vec::new();
                pair.push(RespValue::BulkString(crate::bytesutil::str_bytes("dbfilename")));
                pair.push(RespValue::BulkString(bytes_clone(&config.dbfilename)));
                proof {
                    crate::resp::lemma_resp_seq_view(pair@);
                    assert(pair@.len() == 2);
                    assert(resp_view(pair@[0]) == RespData::BulkString(
                        "dbfilename".spec_bytes(),
                    ));
                    assert(resp_view(pair@[1]) == RespData::BulkString(config.dbfilename@));
                    assert(resp_seq_view(pair@) =~= seq![
                        RespData::BulkString("dbfilename".spec_bytes()),
                        RespData::BulkString(config.dbfilename@),
                    ]);
                }
                RespValue::Array(pair)
            } else {
                RespValue::NullBulkString
            }
        } else {
            RespValue::NullBulkString
        }
    } else {
        crate::replies::reply_ok()
    }
}

/// `INFO`: the role line and the replication id, offset zero.
fn handle_info(config: &ServerConfig) -> (r: RespValue)
    ensures
        resp_view(r) == RespData::BulkString(
            "role:".spec_bytes() + (if config.replicaof is Some {
                "slave".spec_bytes()
            } else {
                "master".spec_bytes()
            }) + "\nmaster_replid:".spec_bytes() + config.replication_id@
                + "\nmaster_repl_offset:0".spec_bytes(),
        ),
{
    let mut info = crate::bytesutil::str_bytes("role:");
    let mut role = if config.replicaof.is_some() {
        crate::bytesutil::str_bytes("slave")
    } else {
        crate::bytesutil::str_bytes("master")
    };
    info.append(&mut role);
    let mut mid = crate::bytesutil::str_bytes("\nmaster_replid:");
    info.append(&mut mid);
    let mut id = bytes_clone(&config.replication_id);
    info.append(&mut id);
    let mut tail = crate::bytesutil::str_bytes("\nmaster_repl_offset:0");
    info.append(&mut tail);
    proof {
        assert(info@ =~= "role:".spec_bytes() + (if config.replicaof is Some {
            "slave".spec_bytes()
        } else {
            "master".spec_bytes()
        }) + "\nmaster_replid:".spec_bytes() + config.replication_id@
            + "\nmaster_repl_offset:0".spec_bytes());
    }
    RespValue::BulkString(info)
}


/// The observable effect of one transaction child on the keyspace:
/// `SET`, `GET`, `INCR` and `DEL` behave as the keyspace operations
/// say; anything else answers an error naming the command and leaves
/// the keyspace alone.
pub open spec fn exec_step_rel(
    pre: Seq<(Vec<u8>, crate::store::KeyWithExpiry)>,
    iv: Seq<RespData>,
    reply: RespData,
    post: Seq<(Vec<u8>, crate::store::KeyWithExpiry)>,
    now: u64,
) -> bool {
    let cmd = spec_upper(spec_arg(iv, 0));
    let is_set = iv.len() >= 3 && cmd == "SET".spec_bytes();
    let is_get = iv.len() == 2 && cmd == "GET".spec_bytes();
    let is_incr = iv.len() == 2 && cmd == "INCR".spec_bytes();
    let is_del = iv.len() >= 2 && cmd == "DEL".spec_bytes();
    &&& (is_set ==> ({
        &&& reply == RespData::SimpleString(crate::replies::ok_msg())
        &&& (crate::store::assoc_get(post, spec_arg(iv, 1)) matches Some(e) && (e.value
            matches crate::store::ValueType::Str(v) && v@ == spec_arg(iv, 2)) && e.expiry == (
        match spec_set_px(iv) {
            None => None,
            Some(ms) => Some(crate::store::spec_deadline(now, ms)),
        }))
        &&& (forall|k2: Seq<u8>|
            k2 != spec_arg(iv, 1) ==> #[trigger] crate::store::assoc_get(post, k2)
                == crate::store::assoc_get(pre, k2))
    }))
    &&& (is_get ==> ({
        &&& (forall|k2: Seq<u8>|
            k2 != spec_arg(iv, 1) ==> #[trigger] crate::store::assoc_get(post, k2)
                == crate::store::assoc_get(pre, k2))
        &&& match crate::store::live_get(pre, spec_arg(iv, 1), now) {
            None => reply == RespData::NullBulkString && crate::store::assoc_get(
                post,
                spec_arg(iv, 1),
            ) is None,
            Some(e) => post == pre && (match e.value {
                crate::store::ValueType::Str(s) => reply == RespData::BulkString(s@),
                _ => reply == RespData::SimpleError(crate::replies::wrongtype_msg()),
            }),
        }
    }))
    &&& (is_incr ==> ({
        &&& (forall|k2: Seq<u8>|
            k2 != spec_arg(iv, 1) ==> #[trigger] crate::store::assoc_get(post, k2)
                == crate::store::assoc_get(pre, k2))
        &&& match crate::store::live_get(pre, spec_arg(iv, 1), now) {
            None => reply == RespData::Integer(1) && (crate::store::assoc_get(
                post,
                spec_arg(iv, 1),
            ) matches Some(e2) && e2.expiry is None && (e2.value
                matches crate::store::ValueType::Str(v) && v@
                == crate::bytesutil::spec_i64_digits(1))),
            Some(e) => match e.value {
                crate::store::ValueType::Str(s) => {
                    if crate::bytesutil::valid_i64_bytes(s@) && crate::bytesutil::i64_val(s@)
                        < i64::MAX {
                        let n = crate::bytesutil::i64_val(s@);
                        &&& reply == RespData::Integer(n + 1)
                        &&& (crate::store::assoc_get(post, spec_arg(iv, 1)) matches Some(e2)
                            && e2.expiry == e.expiry && (e2.value
                            matches crate::store::ValueType::Str(v) && v@
                            == crate::bytesutil::spec_i64_digits(n + 1)))
                    } else {
                        reply == RespData::SimpleError(crate::replies::not_int_msg()) && post
                            == pre
                    }
                },
                _ => reply == RespData::SimpleError(crate::replies::not_int_msg()) && post
                    == pre,
            },
        }
    }))
    &&& (is_del ==> ({
        let keys = Seq::new((iv.len() - 1) as nat, |j: int| spec_arg(iv, 1 + j));
        &&& post == crate::store::spec_del_entries(pre, keys)
        &&& reply == RespData::Integer(crate::store::spec_del_count(pre, keys))
    }))
    &&& (!(is_set || is_get || is_incr || is_del) ==> post == pre && reply
        == RespData::SimpleError(
        if iv.len() == 0 {
            "ERR empty command".spec_bytes()
        } else {
            "ERR unknown command '".spec_bytes() + cmd + "'".spec_bytes()
        },
    ))
}

/// One queued frame's effect: an array frame of reasonable size runs as
/// a transaction child; anything else answers the invalid-command error
/// and changes nothing.
pub open spec fn exec_child_rel(
    pre: Seq<(Vec<u8>, crate::store::KeyWithExpiry)>,
    qv: RespData,
    reply: RespData,
    post: Seq<(Vec<u8>, crate::store::KeyWithExpiry)>,
    now: u64,
) -> bool {
    match qv {
        RespData::Array(its) => if its.len() <= 0x7fff_ffff {
            exec_step_rel(pre, its, reply, post, now)
        } else {
            reply == RespData::SimpleError("ERR invalid command".spec_bytes()) && post == pre
        },
        _ => reply == RespData::SimpleError("ERR invalid command".spec_bytes()) && post == pre,
    }
}

/// A run of queued frames, each child starting from the keyspace the
/// previous one left.
pub open spec fn exec_children_rel(
    pre: Seq<(Vec<u8>, crate::store::KeyWithExpiry)>,
    queue: Seq<RespValue>,
    rs: Seq<RespData>,
    post: Seq<(Vec<u8>, crate::store::KeyWithExpiry)>,
    now: u64,
) -> bool
    decreases queue.len(),
{
    if queue.len() == 0 {
        rs.len() == 0 && post == pre
    } else {
        rs.len() == queue.len() && exists|mid: Seq<(Vec<u8>, crate::store::KeyWithExpiry)>|
            {
                &&& #[trigger] exec_child_rel(pre, resp_view(queue[0]), rs[0], mid, now)
                &&& exec_children_rel(
                    mid,
                    queue.subrange(1, queue.len() as int),
                    rs.subrange(1, rs.len() as int),
                    post,
                    now,
                )
            }
    }
}

/// Does a queued child's frame flow on to the replicas?  Exactly the
/// array frames of the mutating commands whose reply was no error.
pub open spec fn exec_child_propagates(c: RespValue, reply: RespData) -> bool {
    resp_view(c) matches RespData::Array(its) && its.len() <= 0x7fff_ffff && ({
        let ccmd = spec_upper(spec_arg(its, 0));
        (ccmd == "SET".spec_bytes() || ccmd == "INCR".spec_bytes() || ccmd
            == "DEL".spec_bytes()) && !(reply is SimpleError)
    })
}

/// The frames a transaction sends on: the successful mutating children,
/// encoded, in queue order.
pub open spec fn exec_propagated(queue: Seq<RespValue>, rs: Seq<RespData>) -> Seq<Seq<u8>>
    decreases queue.len(),
{
    if queue.len() == 0 || rs.len() == 0 {
        Seq::empty()
    } else {
        let rest = exec_propagated(
            queue.subrange(1, queue.len() as int),
            rs.subrange(1, rs.len() as int),
        );
        if exec_child_propagates(queue[0], rs[0]) {
            seq![crate::resp::spec_encode(resp_view(queue[0]))] + rest
        } else {
            rest
        }
    }
}

/// One more child extends the propagated run.
proof fn lemma_exec_propagated_snoc(queue: Seq<RespValue>, rs: Seq<RespData>, c: RespValue, x: RespData)
    requires
        rs.len() == queue.len(),
    ensures
        exec_propagated(queue.push(c), rs.push(x)) == exec_propagated(queue, rs) + (if exec_child_propagates(c, x) {
            seq![crate::resp::spec_encode(resp_view(c))]
        } else {
            Seq::<Seq<u8>>::empty()
        }),
    decreases queue.len(),
{
    let q2 = queue.push(c);
    let rs2 = rs.push(x);
    let tailv: Seq<Seq<u8>> = if exec_child_propagates(c, x) {
        seq![crate::resp::spec_encode(resp_view(c))]
    } else {
        Seq::<Seq<u8>>::empty()
    };
    if queue.len() == 0 {
        reveal_with_fuel(exec_propagated, 2);
        assert(q2[0] == c && rs2[0] == x);
        assert(q2.subrange(1, 1) =~= Seq::<RespValue>::empty());
        assert(rs2.subrange(1, 1) =~= Seq::<RespData>::empty());
        assert(exec_propagated(q2, rs2) =~= exec_propagated(queue, rs) + tailv);
    } else {
        let q1 = queue.subrange(1, queue.len() as int);
        let rs1 = rs.subrange(1, rs.len() as int);
        lemma_exec_propagated_snoc(q1, rs1, c, x);
        assert(q2.subrange(1, q2.len() as int) =~= q1.push(c));
        assert(rs2.subrange(1, rs2.len() as int) =~= rs1.push(x));
        assert(q2[0] == queue[0] && rs2[0] == rs[0]);
        let head: Seq<Seq<u8>> = if exec_child_propagates(queue[0], rs[0]) {
            seq![crate::resp::spec_encode(resp_view(queue[0]))]
        } else {
            Seq::<Seq<u8>>::empty()
        };
        assert(exec_propagated(queue, rs) == head + exec_propagated(q1, rs1));
        assert(exec_propagated(q2, rs2) == head + (exec_propagated(q1, rs1) + tailv));
        assert(head + (exec_propagated(q1, rs1) + tailv) =~= (head + exec_propagated(q1, rs1))
            + tailv);
        assert(exec_propagated(q2, rs2) =~= exec_propagated(queue, rs) + tailv);
    }
}

/// One more child extends the chain.
proof fn lemma_exec_children_snoc(
    pre: Seq<(Vec<u8>, crate::store::KeyWithExpiry)>,
    queue: Seq<RespValue>,
    rs: Seq<RespData>,
    mid: Seq<(Vec<u8>, crate::store::KeyWithExpiry)>,
    c: RespValue,
    x: RespData,
    post: Seq<(Vec<u8>, crate::store::KeyWithExpiry)>,
    now: u64,
)
    requires
        exec_children_rel(pre, queue, rs, mid, now),
        exec_child_rel(mid, resp_view(c), x, post, now),
        rs.len() == queue.len(),
    ensures
        exec_children_rel(pre, queue.push(c), rs.push(x), post, now),
    decreases queue.len(),
{
    let q2 = queue.push(c);
    let rs2 = rs.push(x);
    if queue.len() == 0 {
        assert(mid == pre);
        assert(q2[0] == c && rs2[0] == x);
        assert(q2.subrange(1, q2.len() as int) =~= Seq::<RespValue>::empty());
        assert(rs2.subrange(1, rs2.len() as int) =~= Seq::<RespData>::empty());
        assert(exec_child_rel(pre, resp_view(q2[0]), rs2[0], post, now));
        assert(exec_children_rel(
            post,
            q2.subrange(1, q2.len() as int),
            rs2.subrange(1, rs2.len() as int),
            post,
            now,
        ));
    } else {
        let m1 = choose|m: Seq<(Vec<u8>, crate::store::KeyWithExpiry)>|
            {
                &&& #[trigger] exec_child_rel(pre, resp_view(queue[0]), rs[0], m, now)
                &&& exec_children_rel(
                    m,
                    queue.subrange(1, queue.len() as int),
                    rs.subrange(1, rs.len() as int),
                    mid,
                    now,
                )
            };
        lemma_exec_children_snoc(
            m1,
            queue.subrange(1, queue.len() as int),
            rs.subrange(1, rs.len() as int),
            mid,
            c,
            x,
            post,
            now,
        );
        assert(q2[0] == queue[0] && rs2[0] == rs[0]);
        assert(q2.subrange(1, q2.len() as int) =~= queue.subrange(1, queue.len() as int).push(c));
        assert(rs2.subrange(1, rs2.len() as int) =~= rs.subrange(1, rs.len() as int).push(x));
        assert(exec_child_rel(pre, resp_view(q2[0]), rs2[0], m1, now));
        assert(exec_children_rel(
            m1,
            q2.subrange(1, q2.len() as int),
            rs2.subrange(1, rs2.len() as int),
            post,
            now,
        ));
    }
}

/// Run one queued transaction command (`SET`, `GET`, `INCR`, `DEL`)
/// against the keyspace and return its reply, exactly as
/// [`exec_step_rel`] says.
pub fn execute_command(items: &Vec<RespValue>, db: &mut Db, now: u64) -> (r: RespValue)
    requires
        old(db).wf(),
        items@.len() <= 0x7fff_ffff_ffff_ffff,
    ensures
        final(db).wf(),
        exec_step_rel(
            old(db).entries@,
            resp_seq_view(items@),
            resp_view(r),
            final(db).entries@,
            now,
        ),
{
    proof {
        lemma_basic_literal_bytes();
        crate::resp::lemma_resp_seq_view(items@);
    }
    if items.len() == 0 {
        return RespValue::SimpleError(crate::bytesutil::str_bytes("ERR empty command"));
    }
    let cmd = to_upper(&arg_bytes(items, 0));
    if bytes_eq_slice(&cmd, "SET".as_bytes()) && items.len() >= 3 {
        let key = arg_bytes(items, 1);
        let val = arg_bytes(items, 2);
        let px = set_px_of(items);
        db.set_key(key, val, px, now)
    } else if bytes_eq_slice(&cmd, "GET".as_bytes()) && items.len() == 2 {
        let key = arg_bytes(items, 1);
        db.get_key(&key, now)
    } else if bytes_eq_slice(&cmd, "INCR".as_bytes()) && items.len() == 2 {
        let key = arg_bytes(items, 1);
        db.incr_key(&key, now)
    } else if bytes_eq_slice(&cmd, "DEL".as_bytes()) && items.len() >= 2 {
        let keys = collect_args_from(items, 1);
        let reply = db.del_key(&keys);
        proof {
            crate::bytesutil::lemma_views_of(keys@);
            let iv = resp_seq_view(items@);
            assert(keys@.len() == iv.len() - 1);
            assert forall|j: int|
                0 <= j < keys@.len() implies crate::bytesutil::views_of(keys@)[j] == spec_arg(
                iv,
                1 + j,
            ) by {
                assert(crate::bytesutil::views_of(keys@)[j] == (#[trigger] keys@[j])@);
            }
            assert(crate::bytesutil::views_of(keys@) =~= Seq::new(
                (iv.len() - 1) as nat,
                |j: int| spec_arg(iv, 1 + j),
            ));
        }
        reply
    } else {
        let mut msg = crate::bytesutil::str_bytes("ERR unknown command '");
        let mut c = cmd;
        msg.append(&mut c);
        let mut tail = crate::bytesutil::str_bytes("'");
        msg.append(&mut tail);
        RespValue::SimpleError(msg)
    }
}

/// The `PX` deadline argument of `SET`, when present and positive.
pub fn set_px_of(items: &Vec<RespValue>) -> (r: Option<u64>)
    ensures
        r == spec_set_px(resp_seq_view(items@)),
{
    proof {
        crate::resp::lemma_resp_seq_view(items@);
    }
    if items.len() >= 5 {
        let opt = to_upper(&arg_bytes(items, 3));
        if bytes_eq_slice(&opt, "PX".as_bytes()) {
            match arg_int(items, 4) {
                Some(ms) => {
                    if ms > 0 {
                        Some(ms as u64)
                    } else {
                        None
                    }
                },
                None => None,
            }
        } else {
            None
        }
    } else {
        None
    }
}

/// The `PX` deadline of a `SET` frame: present when the frame has at
/// least five parts, says `PX`, and carries a positive count.
pub open spec fn spec_set_px(items: Seq<RespData>) -> Option<u64> {
    if items.len() >= 5 && spec_upper(spec_arg(items, 3)) == "PX".spec_bytes()
        && crate::bytesutil::valid_i64_bytes(spec_arg(items, 4)) && crate::bytesutil::i64_val(
        spec_arg(items, 4),
    ) > 0 {
        Some(crate::bytesutil::i64_val(spec_arg(items, 4)) as u64)
    } else {
        None
    }
}

/// The argument bytes from position `from` on.
fn collect_args_from(items: &Vec<RespValue>, from: usize) -> (r: Vec<Vec<u8>>)
    ensures
        r@.len() == (if from <= items@.len() {
            items@.len() - from
        } else {
            0
        }),
        forall|j: int|
            0 <= j < r@.len() ==> (#[trigger] r@[j])@ == spec_arg(
                resp_seq_view(items@),
                from + j,
            ),
{
    proof {
        crate::resp::lemma_resp_seq_view(items@);
    }
    let mut r: Vec<Vec<u8>> = Vec::new();
    if from > items.len() {
        return r;
    }
    let mut i: usize = from;
    while i < items.len()
        invariant
            from <= i <= items@.len(),
            resp_seq_view(items@).len() == items@.len(),
            r@.len() == i - from,
            forall|j: int|
                0 <= j < r@.len() ==> (#[trigger] r@[j])@ == spec_arg(
                    resp_seq_view(items@),
                    from + j,
                ),
        decreases items@.len() - i,
    {
        r.push(arg_bytes(items, i));
        i += 1;
    }
    r
}

/// Is the reply an error?
fn is_error_reply(v: &RespValue) -> (r: bool)
    ensures
        r == (resp_view(*v) is SimpleError),
{
    match v {
        RespValue::SimpleError(_) => true,
        _ => false,
    }
}

impl ServerState {
    /// Encode the frame, advance every replica counter by its length,
    /// and return the bytes to send to each replica.
    pub fn propagate_frame(&mut self, items: &Vec<RespValue>) -> (r: Vec<u8>)
        ensures
            final(self).db == old(self).db,
            final(self).blocked == old(self).blocked,
            final(self).channels == old(self).channels,
            final(self).users == old(self).users,
            r@ == crate::resp::spec_encode(RespData::Array(resp_seq_view(items@))),
            final(self).replicas.offsets@.len() == old(self).replicas.offsets@.len(),
            forall|i: int|
                0 <= i < old(self).replicas.offsets@.len() ==> final(self).replicas.offsets@[i]
                    == crate::repl::sat_add_i64(
                    #[trigger] old(self).replicas.offsets@[i],
                    r@.len() as int,
                ),
    {
        let frame = crate::resp::encode_array_frame(items);
        self.replicas.advance_all(frame.len());
        frame
    }
}


/// The commands whose frames flow on to the replicas.
pub open spec fn spec_replicated_cmd(c: Seq<u8>) -> bool {
    ||| c == "SET".spec_bytes()
    ||| c == "DEL".spec_bytes()
    ||| c == "INCR".spec_bytes()
    ||| c == "RPUSH".spec_bytes()
    ||| c == "LPUSH".spec_bytes()
    ||| c == "LPOP".spec_bytes()
    ||| c == "ZADD".spec_bytes()
    ||| c == "ZREM".spec_bytes()
    ||| c == "GEOADD".spec_bytes()
    ||| c == "EXEC".spec_bytes()
}

/// The command names the dispatcher recognizes.
pub open spec fn spec_known_cmd(c: Seq<u8>) -> bool {
    ||| c == "PING".spec_bytes()
    ||| c == "ECHO".spec_bytes()
    ||| c == "SET".spec_bytes()
    ||| c == "GET".spec_bytes()
    ||| c == "DEL".spec_bytes()
    ||| c == "INCR".spec_bytes()
    ||| c == "TYPE".spec_bytes()
    ||| c == "CONFIG".spec_bytes()
    ||| c == "KEYS".spec_bytes()
    ||| c == "INFO".spec_bytes()
    ||| c == "REPLCONF".spec_bytes()
    ||| c == "WAIT".spec_bytes()
    ||| c == "XADD".spec_bytes()
    ||| c == "XRANGE".spec_bytes()
    ||| c == "XREAD".spec_bytes()
    ||| c == "RPUSH".spec_bytes()
    ||| c == "LPUSH".spec_bytes()
    ||| c == "LRANGE".spec_bytes()
    ||| c == "LLEN".spec_bytes()
    ||| c == "LPOP".spec_bytes()
    ||| c == "BLPOP".spec_bytes()
    ||| c == "PUBLISH".spec_bytes()
    ||| c == "SUBSCRIBE".spec_bytes()
    ||| c == "UNSUBSCRIBE".spec_bytes()
    ||| c == "ZADD".spec_bytes()
    ||| c == "ZRANK".spec_bytes()
    ||| c == "ZRANGE".spec_bytes()
    ||| c == "ZCARD".spec_bytes()
    ||| c == "ZSCORE".spec_bytes()
    ||| c == "ZREM".spec_bytes()
    ||| c == "GEOADD".spec_bytes()
    ||| c == "GEOPOS".spec_bytes()
    ||| c == "GEODIST".spec_bytes()
    ||| c == "GEOSEARCH".spec_bytes()
    ||| c == "MULTI".spec_bytes()
    ||| c == "EXEC".spec_bytes()
    ||| c == "DISCARD".spec_bytes()
    ||| c == "ACL".spec_bytes()
    ||| c == "AUTH".spec_bytes()
}


/// The wire bytes of the literals the basic-command contract
/// The connection and string commands of the dispatcher.
pub open spec fn spec_basic_cmds(c: Seq<u8>) -> bool {
    ||| c == "PING".spec_bytes()
    ||| c == "ECHO".spec_bytes()
    ||| c == "SET".spec_bytes()
    ||| c == "GET".spec_bytes()
    ||| c == "MULTI".spec_bytes()
    ||| c == "DISCARD".spec_bytes()
    ||| c == "SUBSCRIBE".spec_bytes()
    ||| c == "UNSUBSCRIBE".spec_bytes()
}

/// The keyspace and server commands of the dispatcher.
pub open spec fn spec_keyspace_cmds(c: Seq<u8>) -> bool {
    ||| c == "DEL".spec_bytes()
    ||| c == "INCR".spec_bytes()
    ||| c == "TYPE".spec_bytes()
    ||| c == "CONFIG".spec_bytes()
    ||| c == "KEYS".spec_bytes()
    ||| c == "INFO".spec_bytes()
    ||| c == "REPLCONF".spec_bytes()
    ||| c == "WAIT".spec_bytes()
}

/// The sorted-set commands of the dispatcher.
pub open spec fn spec_zset_cmds(c: Seq<u8>) -> bool {
    ||| c == "ZADD".spec_bytes()
    ||| c == "ZRANK".spec_bytes()
    ||| c == "ZRANGE".spec_bytes()
    ||| c == "ZCARD".spec_bytes()
    ||| c == "ZSCORE".spec_bytes()
    ||| c == "ZREM".spec_bytes()
}

/// Is the longitude magnitude within 180 degrees?
pub open spec fn spec_lon_ok(parts: (bool, nat, Seq<u8>)) -> bool {
    parts.1 < 180 || (parts.1 == 180 && parts.2.len() == 0)
}

/// Is the latitude magnitude within the web-Mercator bound?
pub open spec fn spec_lat_ok(parts: (bool, nat, Seq<u8>)) -> bool {
    parts.1 < 85 || (parts.1 == 85 && (crate::score::frac_lt(
        parts.2,
        crate::geo::lat_bound_frac(),
    ) || parts.2 == crate::geo::lat_bound_frac()))
}

/// distinguishes.
proof fn lemma_basic_literal_bytes()
    ensures
        "PING".spec_bytes() == seq![80u8, 73u8, 78u8, 71u8],
        "ECHO".spec_bytes() == seq![69u8, 67u8, 72u8, 79u8],
        "SET".spec_bytes() == seq![83u8, 69u8, 84u8],
        "GET".spec_bytes() == seq![71u8, 69u8, 84u8],
        "MULTI".spec_bytes() == seq![77u8, 85u8, 76u8, 84u8, 73u8],
        "DISCARD".spec_bytes() == seq![68u8, 73u8, 83u8, 67u8, 65u8, 82u8, 68u8],
        "SUBSCRIBE".spec_bytes() == seq![83u8, 85u8, 66u8, 83u8, 67u8, 82u8, 73u8, 66u8, 69u8],
        "UNSUBSCRIBE".spec_bytes() == seq![85u8, 78u8, 83u8, 85u8, 66u8, 83u8, 67u8, 82u8, 73u8, 66u8, 69u8],
        "EXEC".spec_bytes() == seq![69u8, 88u8, 69u8, 67u8],
        "DEL".spec_bytes() == seq![68u8, 69u8, 76u8],
        "INCR".spec_bytes() == seq![73u8, 78u8, 67u8, 82u8],
        "RPUSH".spec_bytes() == seq![82u8, 80u8, 85u8, 83u8, 72u8],
        "LPUSH".spec_bytes() == seq![76u8, 80u8, 85u8, 83u8, 72u8],
        "LPOP".spec_bytes() == seq![76u8, 80u8, 79u8, 80u8],
        "ZADD".spec_bytes() == seq![90u8, 65u8, 68u8, 68u8],
        "ZREM".spec_bytes() == seq![90u8, 82u8, 69u8, 77u8],
        "GEOADD".spec_bytes() == seq![71u8, 69u8, 79u8, 65u8, 68u8, 68u8],
{
    broadcast use vstd::string::group_string_axioms;
    broadcast use vstd::utf8::is_ascii_chars_encode_utf8;

    reveal_strlit("PING");
    assert(vstd::utf8::is_ascii_chars("PING"@));
    assert("PING".spec_bytes() =~= seq![80u8, 73u8, 78u8, 71u8]);
    reveal_strlit("ECHO");
    assert(vstd::utf8::is_ascii_chars("ECHO"@));
    assert("ECHO".spec_bytes() =~= seq![69u8, 67u8, 72u8, 79u8]);
    reveal_strlit("SET");
    assert(vstd::utf8::is_ascii_chars("SET"@));
    assert("SET".spec_bytes() =~= seq![83u8, 69u8, 84u8]);
    reveal_strlit("GET");
    assert(vstd::utf8::is_ascii_chars("GET"@));
    assert("GET".spec_bytes() =~= seq![71u8, 69u8, 84u8]);
    reveal_strlit("MULTI");
    assert(vstd::utf8::is_ascii_chars("MULTI"@));
    assert("MULTI".spec_bytes() =~= seq![77u8, 85u8, 76u8, 84u8, 73u8]);
    reveal_strlit("DISCARD");
    assert(vstd::utf8::is_ascii_chars("DISCARD"@));
    assert("DISCARD".spec_bytes() =~= seq![68u8, 73u8, 83u8, 67u8, 65u8, 82u8, 68u8]);
    reveal_strlit("SUBSCRIBE");
    assert(vstd::utf8::is_ascii_chars("SUBSCRIBE"@));
    assert("SUBSCRIBE".spec_bytes() =~= seq![83u8, 85u8, 66u8, 83u8, 67u8, 82u8, 73u8, 66u8, 69u8]);
    reveal_strlit("UNSUBSCRIBE");
    assert(vstd::utf8::is_ascii_chars("UNSUBSCRIBE"@));
    assert("UNSUBSCRIBE".spec_bytes() =~= seq![85u8, 78u8, 83u8, 85u8, 66u8, 83u8, 67u8, 82u8, 73u8, 66u8, 69u8]);
    reveal_strlit("EXEC");
    assert(vstd::utf8::is_ascii_chars("EXEC"@));
    assert("EXEC".spec_bytes() =~= seq![69u8, 88u8, 69u8, 67u8]);
    reveal_strlit("DEL");
    assert(vstd::utf8::is_ascii_chars("DEL"@));
    assert("DEL".spec_bytes() =~= seq![68u8, 69u8, 76u8]);
    reveal_strlit("INCR");
    assert(vstd::utf8::is_ascii_chars("INCR"@));
    assert("INCR".spec_bytes() =~= seq![73u8, 78u8, 67u8, 82u8]);
    reveal_strlit("RPUSH");
    assert(vstd::utf8::is_ascii_chars("RPUSH"@));
    assert("RPUSH".spec_bytes() =~= seq![82u8, 80u8, 85u8, 83u8, 72u8]);
    reveal_strlit("LPUSH");
    assert(vstd::utf8::is_ascii_chars("LPUSH"@));
    assert("LPUSH".spec_bytes() =~= seq![76u8, 80u8, 85u8, 83u8, 72u8]);
    reveal_strlit("LPOP");
    assert(vstd::utf8::is_ascii_chars("LPOP"@));
    assert("LPOP".spec_bytes() =~= seq![76u8, 80u8, 79u8, 80u8]);
    reveal_strlit("ZADD");
    assert(vstd::utf8::is_ascii_chars("ZADD"@));
    assert("ZADD".spec_bytes() =~= seq![90u8, 65u8, 68u8, 68u8]);
    reveal_strlit("ZREM");
    assert(vstd::utf8::is_ascii_chars("ZREM"@));
    assert("ZREM".spec_bytes() =~= seq![90u8, 82u8, 69u8, 77u8]);
    reveal_strlit("GEOADD");
    assert(vstd::utf8::is_ascii_chars("GEOADD"@));
    assert("GEOADD".spec_bytes() =~= seq![71u8, 69u8, 79u8, 65u8, 68u8, 68u8]);
}

/// The simple connection-level commands, handled ahead of the main
/// routing chain: `PING`, `ECHO`, `SET`, `GET`, `MULTI`, `DISCARD`,
/// `SUBSCRIBE` and `UNSUBSCRIBE`.  `None` means the command (with these
/// arguments) is not one of them and nothing was touched.
fn dispatch_basic(
    cmd: &Vec<u8>,
    items: &Vec<RespValue>,
    state: &mut ClientState,
    srv: &mut ServerState,
    config: &ServerConfig,
    now: u64,
) -> (r: Option<Outcome>)
    requires
        old(srv).wf(),
        items@.len() <= 0x7fff_ffff_ffff_ffff,
    ensures
        final(srv).wf(),
        r is None ==> *final(srv) == *old(srv) && *final(state) == *old(state) && cmd@
            != "PING".spec_bytes() && !(cmd@ == "ECHO".spec_bytes() && items@.len() == 2
            && old(state).subscribed_channels@.len() == 0) && !(cmd@ == "SET".spec_bytes()
            && items@.len() >= 3)
            && !(cmd@ == "GET".spec_bytes() && items@.len() == 2) && cmd@
            != "MULTI".spec_bytes() && cmd@ != "DISCARD".spec_bytes() && !(cmd@
            == "SUBSCRIBE".spec_bytes() && items@.len() >= 2) && !(cmd@
            == "UNSUBSCRIBE".spec_bytes() && items@.len() >= 2),
        r matches Some(o) ==> ({
            &&& one_reply(o)
            &&& spec_known_cmd(cmd@)
            &&& spec_basic_cmds(cmd@)
            &&& o.raw is None
            &&& o.propagated@.len() <= 1
            &&& (o.propagated@.len() >= 1 ==> config.replicaof is None)
            &&& (!spec_replicated_cmd(cmd@) ==> o.propagated@.len() == 0)
            &&& (o.propagated@.len() == 1 ==> o.propagated@[0]@ == crate::resp::spec_encode(
                RespData::Array(resp_seq_view(items@)),
            ) && final(srv).replicas.offsets@.len() == old(srv).replicas.offsets@.len() && (forall|
                i: int,
            |
                0 <= i < old(srv).replicas.offsets@.len() ==> final(srv).replicas.offsets@[i]
                    == crate::repl::sat_add_i64(
                    #[trigger] old(srv).replicas.offsets@[i],
                    o.propagated@[0]@.len() as int,
                )))
            &&& (cmd@ == "SET".spec_bytes() && items@.len() >= 3 ==> ({
                let iv = resp_seq_view(items@);
                &&& o.replies@.len() == 1
                &&& resp_view(o.replies@[0]) == RespData::SimpleString(crate::replies::ok_msg())
                &&& (crate::store::assoc_get(final(srv).db.entries@, spec_arg(iv, 1)) matches Some(
                    e,
                ) && (e.value matches crate::store::ValueType::Str(v) && v@ == spec_arg(iv, 2))
                    && e.expiry == (match spec_set_px(iv) {
                    None => None,
                    Some(ms) => Some(crate::store::spec_deadline(now, ms)),
                }))
            }))
            &&& (cmd@ == "GET".spec_bytes() && items@.len() == 2 ==> ({
                let iv = resp_seq_view(items@);
                &&& o.replies@.len() == 1
                &&& match crate::store::live_get(old(srv).db.entries@, spec_arg(iv, 1), now) {
                    None => resp_view(o.replies@[0]) == RespData::NullBulkString,
                    Some(e) => match e.value {
                        crate::store::ValueType::Str(s) => resp_view(o.replies@[0])
                            == RespData::BulkString(s@),
                        _ => resp_view(o.replies@[0]) == RespData::SimpleError(
                            crate::replies::wrongtype_msg(),
                        ),
                    },
                }
            }))
            &&& (cmd@ == "PING".spec_bytes() ==> ({
                let iv = resp_seq_view(items@);
                &&& o.replies@.len() == 1
                &&& *final(srv) == *old(srv)
                &&& if old(state).subscribed_channels@.len() > 0 {
                    resp_view(o.replies@[0]) == RespData::Array(
                        seq![
                            RespData::BulkString("pong".spec_bytes()),
                            RespData::BulkString(Seq::empty()),
                        ],
                    )
                } else {
                    resp_view(o.replies@[0]) == RespData::SimpleString(
                        if iv.len() > 1 {
                            spec_arg(iv, 1)
                        } else {
                            crate::replies::pong_msg()
                        },
                    )
                }
            }))
            &&& (cmd@ == "ECHO".spec_bytes() && items@.len() == 2
                && old(state).subscribed_channels@.len() == 0 ==> o.replies@.len() == 1
                && resp_view(o.replies@[0])
                == RespData::BulkString(spec_arg(resp_seq_view(items@), 1)) && *final(srv)
                == *old(srv))
            &&& (cmd@ == "MULTI".spec_bytes() ==> o.replies@.len() == 1
                && resp_view(o.replies@[0])
                == RespData::SimpleString(crate::replies::ok_msg())
                && final(state).in_transaction == true
                && final(state).queued_commands@ == old(state).queued_commands@
                && *final(srv) == *old(srv))
            &&& (cmd@ == "DISCARD".spec_bytes() ==> o.replies@.len() == 1
                && *final(srv) == *old(srv)
                && (if old(state).in_transaction {
                resp_view(o.replies@[0]) == RespData::SimpleString(crate::replies::ok_msg())
                    && final(state).in_transaction == false
                    && final(state).queued_commands@.len() == 0
            } else {
                resp_view(o.replies@[0]) == RespData::SimpleError(
                    crate::replies::discard_no_multi_msg(),
                ) && *final(state) == *old(state)
            }))
            &&& (cmd@ == "SUBSCRIBE".spec_bytes() && items@.len() >= 2 ==> ({
                let ch = spec_arg(resp_seq_view(items@), 1);
                let subs0 = old(state).subscribed_channels@;
                let subs1 = final(state).subscribed_channels@;
                let had = exists|i: int| 0 <= i < subs0.len() && (#[trigger] subs0[i])@ == ch;
                &&& o.replies@.len() == 1
                &&& resp_view(o.replies@[0]) == RespData::Array(
                    seq![
                        RespData::BulkString("subscribe".spec_bytes()),
                        RespData::BulkString(ch),
                        RespData::Integer(subs1.len() as i64 as int),
                    ],
                )
                &&& (had ==> subs1 == subs0 && final(srv).channels == old(srv).channels)
                &&& (!had ==> subs1.len() == subs0.len() + 1 && subs1.subrange(
                    0,
                    subs0.len() as int,
                ) == subs0 && subs1.last()@ == ch && (match crate::pubsub::chan_get(
                    old(srv).channels.channels@,
                    ch,
                ) {
                    Some(l0) => crate::pubsub::chan_get(final(srv).channels.channels@, ch)
                        == Some(
                        if l0.contains(old(state).client_id) {
                            l0
                        } else {
                            l0.push(old(state).client_id)
                        },
                    ),
                    None => crate::pubsub::chan_get(final(srv).channels.channels@, ch) == Some(
                        Seq::empty().push(old(state).client_id),
                    ),
                }))
            }))
            &&& (cmd@ == "UNSUBSCRIBE".spec_bytes() && items@.len() >= 2 ==> ({
                let ch = spec_arg(resp_seq_view(items@), 1);
                let subs1 = final(state).subscribed_channels@;
                &&& o.replies@.len() == 1
                &&& resp_view(o.replies@[0]) == RespData::Array(
                    seq![
                        RespData::BulkString("unsubscribe".spec_bytes()),
                        RespData::BulkString(ch),
                        RespData::Integer(subs1.len() as i64 as int),
                    ],
                )
                &&& (forall|i: int| 0 <= i < subs1.len() ==> (#[trigger] subs1[i])@ != ch)
            }))
        }),
{
    proof {
        crate::resp::lemma_resp_seq_view(items@);
        lemma_basic_literal_bytes();
    }
    let is_subscribed = state.is_subscribed();
    let is_master = config.replicaof.is_none();
    if bytes_eq_slice(cmd, "PING".as_bytes()) {
        if !is_subscribed {
            let payload = if items.len() > 1 {
                arg_bytes(items, 1)
            } else {
                crate::bytesutil::str_bytes("PONG")
            };
            Some(reply_outcome(RespValue::SimpleString(payload)))
        } else {
            let mut pair: Vec<RespValue> = Vec::new();
            pair.push(RespValue::BulkString(crate::bytesutil::str_bytes("pong")));
            pair.push(RespValue::BulkString(Vec::new()));
            proof {
                crate::resp::lemma_resp_seq_view(pair@);
                assert(pair@.len() == 2);
                assert(resp_view(pair@[0]) == RespData::BulkString("pong".spec_bytes()));
                assert(resp_view(pair@[1]) == RespData::BulkString(Seq::empty()));
                assert(resp_seq_view(pair@) =~= seq![
                    RespData::BulkString("pong".spec_bytes()),
                    RespData::BulkString(Seq::empty()),
                ]);
            }
            Some(reply_outcome(RespValue::Array(pair)))
        }
    } else if bytes_eq_slice(cmd, "ECHO".as_bytes()) && items.len() == 2 && !is_subscribed {
        Some(reply_outcome(RespValue::BulkString(arg_bytes(items, 1))))
    } else if bytes_eq_slice(cmd, "SET".as_bytes()) && items.len() >= 3 {
        let key = arg_bytes(items, 1);
        let val = arg_bytes(items, 2);
        let px = set_px_of(items);
        let reply = srv.db.set_key(key, val, px, now);
        let mut out = reply_outcome(reply);
        if is_master {
            let frame = srv.propagate_frame(items);
            out.propagated.push(frame);
        }
        Some(out)
    } else if bytes_eq_slice(cmd, "GET".as_bytes()) && items.len() == 2 {
        let key = arg_bytes(items, 1);
        Some(reply_outcome(srv.db.get_key(&key, now)))
    } else if bytes_eq_slice(cmd, "MULTI".as_bytes()) {
        state.in_transaction = true;
        Some(reply_outcome(crate::replies::reply_ok()))
    } else if bytes_eq_slice(cmd, "DISCARD".as_bytes()) {
        if !state.in_transaction {
            Some(
                reply_outcome(
                    RespValue::SimpleError(
                        crate::bytesutil::str_bytes("ERR DISCARD without MULTI"),
                    ),
                ),
            )
        } else {
            state.in_transaction = false;
            state.queued_commands = Vec::new();
            Some(reply_outcome(crate::replies::reply_ok()))
        }
    } else if bytes_eq_slice(cmd, "SUBSCRIBE".as_bytes()) && items.len() >= 2 {
        let channel = arg_bytes(items, 1);
        let ghost subs0 = state.subscribed_channels@;
        if !vec_contains_bytes(&state.subscribed_channels, &channel) {
            state.subscribed_channels.push(bytes_clone(&channel));
            srv.channels.subscribe(&channel, state.client_id);
            proof {
                assert(state.subscribed_channels@.subrange(0, subs0.len() as int) =~= subs0);
            }
        }
        let count = #[verifier::truncate] (state.subscribed_channels.len() as i64);
        Some(reply_outcome(sub_reply("subscribe", &channel, count)))
    } else if bytes_eq_slice(cmd, "UNSUBSCRIBE".as_bytes()) && items.len() >= 2 {
        let channel = arg_bytes(items, 1);
        if vec_contains_bytes(&state.subscribed_channels, &channel) {
            vec_remove_bytes(&mut state.subscribed_channels, &channel);
            srv.channels.unsubscribe(&channel, state.client_id);
        }
        let count = #[verifier::truncate] (state.subscribed_channels.len() as i64);
        Some(reply_outcome(sub_reply("unsubscribe", &channel, count)))
    } else {
        None
    }
}


/// The wire bytes of the literals the keyspace-group contract
/// distinguishes.
proof fn lemma_keyspace_literal_bytes()
    ensures
        "DEL".spec_bytes() == seq![68u8, 69u8, 76u8],
        "INCR".spec_bytes() == seq![73u8, 78u8, 67u8, 82u8],
        "TYPE".spec_bytes() == seq![84u8, 89u8, 80u8, 69u8],
        "CONFIG".spec_bytes() == seq![67u8, 79u8, 78u8, 70u8, 73u8, 71u8],
        "KEYS".spec_bytes() == seq![75u8, 69u8, 89u8, 83u8],
        "INFO".spec_bytes() == seq![73u8, 78u8, 70u8, 79u8],
        "REPLCONF".spec_bytes() == seq![82u8, 69u8, 80u8, 76u8, 67u8, 79u8, 78u8, 70u8],
        "WAIT".spec_bytes() == seq![87u8, 65u8, 73u8, 84u8],
        "SET".spec_bytes() == seq![83u8, 69u8, 84u8],
        "GET".spec_bytes() == seq![71u8, 69u8, 84u8],
        "EXEC".spec_bytes() == seq![69u8, 88u8, 69u8, 67u8],
        "ACL".spec_bytes() == seq![65u8, 67u8, 76u8],
        "AUTH".spec_bytes() == seq![65u8, 85u8, 84u8, 72u8],
        "RPUSH".spec_bytes() == seq![82u8, 80u8, 85u8, 83u8, 72u8],
        "LPUSH".spec_bytes() == seq![76u8, 80u8, 85u8, 83u8, 72u8],
        "LPOP".spec_bytes() == seq![76u8, 80u8, 79u8, 80u8],
        "ZADD".spec_bytes() == seq![90u8, 65u8, 68u8, 68u8],
        "ZREM".spec_bytes() == seq![90u8, 82u8, 69u8, 77u8],
        "GEOADD".spec_bytes() == seq![71u8, 69u8, 79u8, 65u8, 68u8, 68u8],
{
    broadcast use vstd::string::group_string_axioms;
    broadcast use vstd::utf8::is_ascii_chars_encode_utf8;

    reveal_strlit("DEL");
    assert(vstd::utf8::is_ascii_chars("DEL"@));
    assert("DEL".spec_bytes() =~= seq![68u8, 69u8, 76u8]);
    reveal_strlit("INCR");
    assert(vstd::utf8::is_ascii_chars("INCR"@));
    assert("INCR".spec_bytes() =~= seq![73u8, 78u8, 67u8, 82u8]);
    reveal_strlit("TYPE");
    assert(vstd::utf8::is_ascii_chars("TYPE"@));
    assert("TYPE".spec_bytes() =~= seq![84u8, 89u8, 80u8, 69u8]);
    reveal_strlit("CONFIG");
    assert(vstd::utf8::is_ascii_chars("CONFIG"@));
    assert("CONFIG".spec_bytes() =~= seq![67u8, 79u8, 78u8, 70u8, 73u8, 71u8]);
    reveal_strlit("KEYS");
    assert(vstd::utf8::is_ascii_chars("KEYS"@));
    assert("KEYS".spec_bytes() =~= seq![75u8, 69u8, 89u8, 83u8]);
    reveal_strlit("INFO");
    assert(vstd::utf8::is_ascii_chars("INFO"@));
    assert("INFO".spec_bytes() =~= seq![73u8, 78u8, 70u8, 79u8]);
    reveal_strlit("REPLCONF");
    assert(vstd::utf8::is_ascii_chars("REPLCONF"@));
    assert("REPLCONF".spec_bytes() =~= seq![82u8, 69u8, 80u8, 76u8, 67u8, 79u8, 78u8, 70u8]);
    reveal_strlit("WAIT");
    assert(vstd::utf8::is_ascii_chars("WAIT"@));
    assert("WAIT".spec_bytes() =~= seq![87u8, 65u8, 73u8, 84u8]);
    reveal_strlit("SET");
    assert(vstd::utf8::is_ascii_chars("SET"@));
    assert("SET".spec_bytes() =~= seq![83u8, 69u8, 84u8]);
    reveal_strlit("GET");
    assert(vstd::utf8::is_ascii_chars("GET"@));
    assert("GET".spec_bytes() =~= seq![71u8, 69u8, 84u8]);
    reveal_strlit("EXEC");
    assert(vstd::utf8::is_ascii_chars("EXEC"@));
    assert("EXEC".spec_bytes() =~= seq![69u8, 88u8, 69u8, 67u8]);
    reveal_strlit("ACL");
    assert(vstd::utf8::is_ascii_chars("ACL"@));
    assert("ACL".spec_bytes() =~= seq![65u8, 67u8, 76u8]);
    reveal_strlit("AUTH");
    assert(vstd::utf8::is_ascii_chars("AUTH"@));
    assert("AUTH".spec_bytes() =~= seq![65u8, 85u8, 84u8, 72u8]);
    reveal_strlit("RPUSH");
    assert(vstd::utf8::is_ascii_chars("RPUSH"@));
    assert("RPUSH".spec_bytes() =~= seq![82u8, 80u8, 85u8, 83u8, 72u8]);
    reveal_strlit("LPUSH");
    assert(vstd::utf8::is_ascii_chars("LPUSH"@));
    assert("LPUSH".spec_bytes() =~= seq![76u8, 80u8, 85u8, 83u8, 72u8]);
    reveal_strlit("LPOP");
    assert(vstd::utf8::is_ascii_chars("LPOP"@));
    assert("LPOP".spec_bytes() =~= seq![76u8, 80u8, 79u8, 80u8]);
    reveal_strlit("ZADD");
    assert(vstd::utf8::is_ascii_chars("ZADD"@));
    assert("ZADD".spec_bytes() =~= seq![90u8, 65u8, 68u8, 68u8]);
    reveal_strlit("ZREM");
    assert(vstd::utf8::is_ascii_chars("ZREM"@));
    assert("ZREM".spec_bytes() =~= seq![90u8, 82u8, 69u8, 77u8]);
    reveal_strlit("GEOADD");
    assert(vstd::utf8::is_ascii_chars("GEOADD"@));
    assert("GEOADD".spec_bytes() =~= seq![71u8, 69u8, 79u8, 65u8, 68u8, 68u8]);
}

/// The `WAIT` timeout argument: a positive count, else zero.
pub open spec fn spec_wait_timeout(iv: Seq<RespData>) -> u64 {
    if crate::bytesutil::valid_i64_bytes(spec_arg(iv, 2)) && crate::bytesutil::i64_val(
        spec_arg(iv, 2),
    ) > 0 {
        crate::bytesutil::i64_val(spec_arg(iv, 2)) as u64
    } else {
        0
    }
}

/// The keyspace and bookkeeping commands: `DEL`, `INCR`, `TYPE`,
/// `CONFIG`, `KEYS`, `INFO`, `REPLCONF` and `WAIT`.  `None` means the
/// command (with these arguments) is not one of them and nothing was
/// touched.
#[verifier::rlimit(100)]
#[verifier::spinoff_prover]
fn dispatch_keyspace(
    cmd: &Vec<u8>,
    items: &Vec<RespValue>,
    srv: &mut ServerState,
    config: &ServerConfig,
    now: u64,
) -> (r: Option<Outcome>)
    requires
        old(srv).wf(),
        items@.len() <= 0x7fff_ffff_ffff_ffff,
        cmd@ == spec_upper(spec_arg(resp_seq_view(items@), 0)),
    ensures
        final(srv).wf(),
        r is None ==> *final(srv) == *old(srv) && !(cmd@ == "DEL".spec_bytes() && items@.len()
            >= 2) && !(cmd@ == "INCR".spec_bytes() && items@.len() == 2) && !(cmd@
            == "TYPE".spec_bytes() && items@.len() == 2) && cmd@ != "CONFIG".spec_bytes() && !(
        cmd@ == "KEYS".spec_bytes() && items@.len() == 2) && !(cmd@ == "INFO".spec_bytes()
            && items@.len() == 2) && cmd@ != "REPLCONF".spec_bytes() && !(cmd@
            == "WAIT".spec_bytes() && items@.len() == 3),
        r matches Some(o) ==> ({
            let iv = resp_seq_view(items@);
            &&& one_reply(o)
            &&& spec_known_cmd(cmd@)
            &&& spec_keyspace_cmds(cmd@)
            &&& cmd@ != "SET".spec_bytes() && cmd@ != "GET".spec_bytes() && cmd@
                != "EXEC".spec_bytes() && cmd@ != "ACL".spec_bytes() && cmd@
                != "AUTH".spec_bytes()
            &&& o.raw is None
            &&& o.propagated@.len() <= 1
            &&& (o.propagated@.len() >= 1 ==> config.replicaof is None)
            &&& (config.replicaof matches Some(t) ==> o.propagated@.len() == 0)
            &&& (!spec_replicated_cmd(cmd@) ==> o.propagated@.len() == 0)
            &&& (o.propagated@.len() == 1 ==> o.propagated@[0]@ == crate::resp::spec_encode(
                RespData::Array(iv),
            ) && final(srv).replicas.offsets@.len() == old(srv).replicas.offsets@.len() && (
            forall|i: int|
                0 <= i < old(srv).replicas.offsets@.len() ==> final(srv).replicas.offsets@[i]
                    == crate::repl::sat_add_i64(
                    #[trigger] old(srv).replicas.offsets@[i],
                    o.propagated@[0]@.len() as int,
                )))
            &&& (cmd@ == "DEL".spec_bytes() && iv.len() >= 2 ==> ({
                &&& o.replies@.len() == 1
                &&& exec_step_rel(
                    old(srv).db.entries@,
                    iv,
                    resp_view(o.replies@[0]),
                    final(srv).db.entries@,
                    now,
                )
                &&& (config.replicaof is None ==> o.propagated@.len() == 1)
            }))
            &&& (cmd@ == "INCR".spec_bytes() && iv.len() == 2 ==> ({
                &&& o.replies@.len() == 1
                &&& exec_step_rel(
                    old(srv).db.entries@,
                    iv,
                    resp_view(o.replies@[0]),
                    final(srv).db.entries@,
                    now,
                )
                &&& (config.replicaof is None && !(resp_view(o.replies@[0]) is SimpleError)
                    ==> o.propagated@.len() == 1)
            }))
            &&& (cmd@ == "TYPE".spec_bytes() && iv.len() == 2 ==> ({
                &&& o.replies@.len() == 1
                &&& (forall|k2: Seq<u8>|
                    k2 != spec_arg(iv, 1) ==> #[trigger] crate::store::assoc_get(
                        final(srv).db.entries@,
                        k2,
                    ) == crate::store::assoc_get(old(srv).db.entries@, k2))
                &&& match crate::store::live_get(old(srv).db.entries@, spec_arg(iv, 1), now) {
                    None => resp_view(o.replies@[0]) == RespData::SimpleString(
                        "none".spec_bytes(),
                    ) && crate::store::assoc_get(final(srv).db.entries@, spec_arg(iv, 1))
                        is None,
                    Some(e) => final(srv).db == old(srv).db && resp_view(o.replies@[0])
                        == RespData::SimpleString(crate::store::kind_name(e.value)),
                }
            }))
            &&& (cmd@ == "CONFIG".spec_bytes() ==> ({
                let sub = spec_upper(spec_arg(iv, 1));
                &&& o.replies@.len() == 1
                &&& *final(srv) == *old(srv)
                &&& if sub == "GET".spec_bytes() {
                    if iv.len() == 3 && spec_upper(spec_arg(iv, 2)) == "DIR".spec_bytes() {
                        resp_view(o.replies@[0]) == RespData::Array(
                            seq![
                                RespData::BulkString("dir".spec_bytes()),
                                RespData::BulkString(config.dir@),
                            ],
                        )
                    } else if iv.len() == 3 && spec_upper(spec_arg(iv, 2))
                        == "DBFILENAME".spec_bytes() {
                        resp_view(o.replies@[0]) == RespData::Array(
                            seq![
                                RespData::BulkString("dbfilename".spec_bytes()),
                                RespData::BulkString(config.dbfilename@),
                            ],
                        )
                    } else {
                        resp_view(o.replies@[0]) == RespData::NullBulkString
                    }
                } else {
                    resp_view(o.replies@[0]) == RespData::SimpleString(crate::replies::ok_msg())
                }
            }))
            &&& (cmd@ == "KEYS".spec_bytes() && iv.len() == 2 ==> ({
                &&& o.replies@.len() == 1
                &&& *final(srv) == *old(srv)
                &&& resp_view(o.replies@[0]) == RespData::Array(
                    crate::store::matching_live_keys(
                        old(srv).db.entries@,
                        spec_arg(iv, 1),
                        now,
                    ).map_values(|k: Seq<u8>| RespData::BulkString(k)),
                )
            }))
            &&& (cmd@ == "INFO".spec_bytes() && iv.len() == 2 ==> ({
                &&& o.replies@.len() == 1
                &&& *final(srv) == *old(srv)
                &&& resp_view(o.replies@[0]) == RespData::BulkString(
                    "role:".spec_bytes() + (if config.replicaof is Some {
                        "slave".spec_bytes()
                    } else {
                        "master".spec_bytes()
                    }) + "\nmaster_replid:".spec_bytes() + config.replication_id@
                        + "\nmaster_repl_offset:0".spec_bytes(),
                )
            }))
            &&& (cmd@ == "REPLCONF".spec_bytes() ==> o.replies@.len() == 1 && resp_view(
                o.replies@[0],
            ) == RespData::SimpleString(crate::replies::ok_msg()) && *final(srv) == *old(srv))
            &&& (cmd@ == "WAIT".spec_bytes() && iv.len() == 3 ==> ({
                let offs = old(srv).replicas.offsets@;
                &&& *final(srv) == *old(srv)
                &&& if offs.len() == 0 {
                    o.replies@.len() == 1 && resp_view(o.replies@[0]) == RespData::Integer(0)
                } else if forall|i: int| 0 <= i < offs.len() ==> #[trigger] offs[i] <= 0 {
                    o.replies@.len() == 1 && resp_view(o.replies@[0]) == RespData::Integer(
                        offs.len() as i64 as int,
                    )
                } else {
                    o.replies@.len() == 0 && (o.action matches Some(a) && (a
                        matches Action::Getacks { expected, timeout_ms } && expected@ == offs
                        && timeout_ms == spec_wait_timeout(iv)))
                }
            }))
        }),
{
    proof {
        crate::resp::lemma_resp_seq_view(items@);
        lemma_keyspace_literal_bytes();
    }
    let is_master = config.replicaof.is_none();
    if bytes_eq_slice(cmd, "DEL".as_bytes()) && items.len() >= 2 {
        let keys = collect_args_from(items, 1);
        let reply = srv.db.del_key(&keys);
        proof {
            crate::bytesutil::lemma_views_of(keys@);
            let iv = resp_seq_view(items@);
            assert(keys@.len() == iv.len() - 1);
            assert forall|j: int|
                0 <= j < keys@.len() implies crate::bytesutil::views_of(keys@)[j] == spec_arg(
                iv,
                1 + j,
            ) by {
                assert(crate::bytesutil::views_of(keys@)[j] == (#[trigger] keys@[j])@);
            }
            assert(crate::bytesutil::views_of(keys@) =~= Seq::new(
                (iv.len() - 1) as nat,
                |j: int| spec_arg(iv, 1 + j),
            ));
        }
        let mut out = reply_outcome(reply);
        if is_master {
            let frame = srv.propagate_frame(items);
            out.propagated.push(frame);
        }
        Some(out)
    } else if bytes_eq_slice(cmd, "INCR".as_bytes()) && items.len() == 2 {
        let key = arg_bytes(items, 1);
        let reply = srv.db.incr_key(&key, now);
        let ok = !is_error_reply(&reply);
        let mut out = reply_outcome(reply);
        if is_master && ok {
            let frame = srv.propagate_frame(items);
            out.propagated.push(frame);
        }
        Some(out)
    } else if bytes_eq_slice(cmd, "TYPE".as_bytes()) && items.len() == 2 {
        let key = arg_bytes(items, 1);
        Some(reply_outcome(srv.db.handle_type(&key, now)))
    } else if bytes_eq_slice(cmd, "CONFIG".as_bytes()) {
        Some(reply_outcome(handle_config(items, config)))
    } else if bytes_eq_slice(cmd, "KEYS".as_bytes()) && items.len() == 2 {
        let pattern = arg_bytes(items, 1);
        Some(reply_outcome(srv.db.handle_key_search(&pattern, now)))
    } else if bytes_eq_slice(cmd, "INFO".as_bytes()) && items.len() == 2 {
        Some(reply_outcome(handle_info(config)))
    } else if bytes_eq_slice(cmd, "REPLCONF".as_bytes()) {
        Some(reply_outcome(crate::replies::reply_ok()))
    } else if bytes_eq_slice(cmd, "WAIT".as_bytes()) && items.len() == 3 {
        let timeout: u64 = match arg_int(items, 2) {
            Some(t) => if t > 0 {
                t as u64
            } else {
                0
            },
            None => 0,
        };
        match crate::repl::wait_plan(&srv.replicas) {
            crate::repl::WaitPlan::CountNow(n) => Some(reply_outcome(RespValue::Integer(n))),
            crate::repl::WaitPlan::Poll(expected) => Some(
                blocked_outcome(Action::Getacks { expected, timeout_ms: timeout }),
            ),
        }
    } else {
        None
    }
}


/// The wire bytes of the sorted-set command literals.
proof fn lemma_zset_literal_bytes()
    ensures
        "ZADD".spec_bytes() == seq![90u8, 65u8, 68u8, 68u8],
        "ZRANK".spec_bytes() == seq![90u8, 82u8, 65u8, 78u8, 75u8],
        "ZRANGE".spec_bytes() == seq![90u8, 82u8, 65u8, 78u8, 71u8, 69u8],
        "ZCARD".spec_bytes() == seq![90u8, 67u8, 65u8, 82u8, 68u8],
        "ZSCORE".spec_bytes() == seq![90u8, 83u8, 67u8, 79u8, 82u8, 69u8],
        "ZREM".spec_bytes() == seq![90u8, 82u8, 69u8, 77u8],
        "SET".spec_bytes() == seq![83u8, 69u8, 84u8],
        "GET".spec_bytes() == seq![71u8, 69u8, 84u8],
        "DEL".spec_bytes() == seq![68u8, 69u8, 76u8],
        "INCR".spec_bytes() == seq![73u8, 78u8, 67u8, 82u8],
        "RPUSH".spec_bytes() == seq![82u8, 80u8, 85u8, 83u8, 72u8],
        "LPUSH".spec_bytes() == seq![76u8, 80u8, 85u8, 83u8, 72u8],
        "LPOP".spec_bytes() == seq![76u8, 80u8, 79u8, 80u8],
        "GEOADD".spec_bytes() == seq![71u8, 69u8, 79u8, 65u8, 68u8, 68u8],
        "EXEC".spec_bytes() == seq![69u8, 88u8, 69u8, 67u8],
        "ACL".spec_bytes() == seq![65u8, 67u8, 76u8],
        "AUTH".spec_bytes() == seq![65u8, 85u8, 84u8, 72u8],
{
    broadcast use vstd::string::group_string_axioms;
    broadcast use vstd::utf8::is_ascii_chars_encode_utf8;

    reveal_strlit("ZADD");
    assert(vstd::utf8::is_ascii_chars("ZADD"@));
    assert("ZADD".spec_bytes() =~= seq![90u8, 65u8, 68u8, 68u8]);
    reveal_strlit("ZRANK");
    assert(vstd::utf8::is_ascii_chars("ZRANK"@));
    assert("ZRANK".spec_bytes() =~= seq![90u8, 82u8, 65u8, 78u8, 75u8]);
    reveal_strlit("ZRANGE");
    assert(vstd::utf8::is_ascii_chars("ZRANGE"@));
    assert("ZRANGE".spec_bytes() =~= seq![90u8, 82u8, 65u8, 78u8, 71u8, 69u8]);
    reveal_strlit("ZCARD");
    assert(vstd::utf8::is_ascii_chars("ZCARD"@));
    assert("ZCARD".spec_bytes() =~= seq![90u8, 67u8, 65u8, 82u8, 68u8]);
    reveal_strlit("ZSCORE");
    assert(vstd::utf8::is_ascii_chars("ZSCORE"@));
    assert("ZSCORE".spec_bytes() =~= seq![90u8, 83u8, 67u8, 79u8, 82u8, 69u8]);
    reveal_strlit("ZREM");
    assert(vstd::utf8::is_ascii_chars("ZREM"@));
    assert("ZREM".spec_bytes() =~= seq![90u8, 82u8, 69u8, 77u8]);
    reveal_strlit("SET");
    assert(vstd::utf8::is_ascii_chars("SET"@));
    assert("SET".spec_bytes() =~= seq![83u8, 69u8, 84u8]);
    reveal_strlit("GET");
    assert(vstd::utf8::is_ascii_chars("GET"@));
    assert("GET".spec_bytes() =~= seq![71u8, 69u8, 84u8]);
    reveal_strlit("DEL");
    assert(vstd::utf8::is_ascii_chars("DEL"@));
    assert("DEL".spec_bytes() =~= seq![68u8, 69u8, 76u8]);
    reveal_strlit("INCR");
    assert(vstd::utf8::is_ascii_chars("INCR"@));
    assert("INCR".spec_bytes() =~= seq![73u8, 78u8, 67u8, 82u8]);
    reveal_strlit("RPUSH");
    assert(vstd::utf8::is_ascii_chars("RPUSH"@));
    assert("RPUSH".spec_bytes() =~= seq![82u8, 80u8, 85u8, 83u8, 72u8]);
    reveal_strlit("LPUSH");
    assert(vstd::utf8::is_ascii_chars("LPUSH"@));
    assert("LPUSH".spec_bytes() =~= seq![76u8, 80u8, 85u8, 83u8, 72u8]);
    reveal_strlit("LPOP");
    assert(vstd::utf8::is_ascii_chars("LPOP"@));
    assert("LPOP".spec_bytes() =~= seq![76u8, 80u8, 79u8, 80u8]);
    reveal_strlit("GEOADD");
    assert(vstd::utf8::is_ascii_chars("GEOADD"@));
    assert("GEOADD".spec_bytes() =~= seq![71u8, 69u8, 79u8, 65u8, 68u8, 68u8]);
    reveal_strlit("EXEC");
    assert(vstd::utf8::is_ascii_chars("EXEC"@));
    assert("EXEC".spec_bytes() =~= seq![69u8, 88u8, 69u8, 67u8]);
    reveal_strlit("ACL");
    assert(vstd::utf8::is_ascii_chars("ACL"@));
    assert("ACL".spec_bytes() =~= seq![65u8, 67u8, 76u8]);
    reveal_strlit("AUTH");
    assert(vstd::utf8::is_ascii_chars("AUTH"@));
    assert("AUTH".spec_bytes() =~= seq![65u8, 85u8, 84u8, 72u8]);
}

/// The canonical score parts a `ZADD` score argument denotes, with the
/// unparseable fallback of zero.
pub open spec fn spec_zadd_score(b: Seq<u8>) -> (bool, u64, Seq<u8>) {
    if crate::score::valid_score_bytes(b) {
        let p = crate::score::spec_score_parts(b);
        (p.0, p.1 as u64, p.2)
    } else {
        (false, 0u64, Seq::empty())
    }
}

/// The sorted-set commands: `ZADD`, `ZRANK`, `ZRANGE`, `ZCARD`,
/// `ZSCORE` and `ZREM`.  `None` means the command (with these
/// arguments) is not one of them and nothing was touched.
#[verifier::rlimit(100)]
#[verifier::spinoff_prover]
fn dispatch_zsets(
    cmd: &Vec<u8>,
    items: &Vec<RespValue>,
    srv: &mut ServerState,
    config: &ServerConfig,
    now: u64,
) -> (r: Option<Outcome>)
    requires
        old(srv).wf(),
        items@.len() <= 0x7fff_ffff_ffff_ffff,
        cmd@ == spec_upper(spec_arg(resp_seq_view(items@), 0)),
    ensures
        final(srv).wf(),
        r is None ==> *final(srv) == *old(srv) && !(cmd@ == "ZADD".spec_bytes() && items@.len()
            >= 4) && !(cmd@ == "ZRANK".spec_bytes() && items@.len() >= 3) && !(cmd@
            == "ZRANGE".spec_bytes() && items@.len() >= 4) && !(cmd@ == "ZCARD".spec_bytes()
            && items@.len() == 2) && !(cmd@ == "ZSCORE".spec_bytes() && items@.len() == 3) && !(
        cmd@ == "ZREM".spec_bytes() && items@.len() >= 3),
        r matches Some(o) ==> ({
            let iv = resp_seq_view(items@);
            let key = spec_arg(iv, 1);
            &&& one_reply(o)
            &&& o.replies@.len() == 1
            &&& spec_known_cmd(cmd@)
            &&& spec_zset_cmds(cmd@)
            &&& cmd@ != "SET".spec_bytes() && cmd@ != "GET".spec_bytes() && cmd@
                != "EXEC".spec_bytes() && cmd@ != "ACL".spec_bytes() && cmd@
                != "AUTH".spec_bytes()
            &&& o.raw is None
            &&& o.action is None
            &&& o.propagated@.len() <= 1
            &&& (o.propagated@.len() >= 1 ==> config.replicaof is None)
            &&& (config.replicaof matches Some(t) ==> o.propagated@.len() == 0)
            &&& (!spec_replicated_cmd(cmd@) ==> o.propagated@.len() == 0)
            &&& (o.propagated@.len() == 1 ==> o.propagated@[0]@ == crate::resp::spec_encode(
                RespData::Array(iv),
            ) && final(srv).replicas.offsets@.len() == old(srv).replicas.offsets@.len() && (
            forall|i: int|
                0 <= i < old(srv).replicas.offsets@.len() ==> final(srv).replicas.offsets@[i]
                    == crate::repl::sat_add_i64(
                    #[trigger] old(srv).replicas.offsets@[i],
                    o.propagated@[0]@.len() as int,
                )))
            &&& (cmd@ == "ZADD".spec_bytes() && iv.len() >= 4 ==> ({
                let cur = crate::store::live_get(old(srv).db.entries@, key, now);
                let bad = cur matches Some(e) && !(e.value is SortedSet);
                let z0: Seq<crate::zset::ZsetEntry> = match cur {
                    Some(e) => match e.value {
                        crate::store::ValueType::SortedSet(z) => z@,
                        _ => Seq::empty(),
                    },
                    None => Seq::empty(),
                };
                let member = spec_arg(iv, 3);
                if bad {
                    resp_view(o.replies@[0]) == RespData::SimpleError(
                        crate::replies::wrongtype_msg(),
                    ) && o.propagated@.len() == 0
                } else {
                    let existed = crate::zset::zset_lookup(z0, member) is Some;
                    &&& resp_view(o.replies@[0]) == RespData::Integer(
                        if existed {
                            0
                        } else {
                            1
                        },
                    )
                    &&& (crate::store::assoc_get(final(srv).db.entries@, key) matches Some(e2)
                        && e2.expiry is None && (e2.value
                        matches crate::store::ValueType::SortedSet(z1) && crate::zset::zset_lookup(
                        z1@,
                        member,
                    ) == Some(spec_zadd_score(spec_arg(iv, 2))) && (forall|m: Seq<u8>|
                        m != member ==> #[trigger] crate::zset::zset_lookup(z1@, m)
                            == crate::zset::zset_lookup(z0, m))))
                    &&& (config.replicaof is None ==> o.propagated@.len() == 1)
                }
            }))
            &&& (cmd@ == "ZRANK".spec_bytes() && iv.len() >= 3 ==> match crate::store::live_get(
                old(srv).db.entries@,
                key,
                now,
            ) {
                None => resp_view(o.replies@[0]) == RespData::NullBulkString,
                Some(e) => match e.value {
                    crate::store::ValueType::SortedSet(z) => {
                        if crate::zset::zset_lookup(z@, spec_arg(iv, 2)) is Some {
                            exists|i: int|
                                0 <= i < z@.len() && (#[trigger] z@[i]).member@ == spec_arg(
                                    iv,
                                    2,
                                ) && resp_view(o.replies@[0]) == RespData::Integer(
                                    i as i64 as int,
                                )
                        } else {
                            resp_view(o.replies@[0]) == RespData::NullBulkString
                        }
                    },
                    _ => resp_view(o.replies@[0]) == RespData::SimpleError(
                        crate::replies::wrongtype_msg(),
                    ),
                },
            })
            &&& (cmd@ == "ZRANGE".spec_bytes() && iv.len() >= 4 ==> ({
                let start: int = if crate::bytesutil::valid_i64_bytes(spec_arg(iv, 2)) {
                    crate::bytesutil::i64_val(spec_arg(iv, 2))
                } else {
                    0
                };
                let stop: int = if crate::bytesutil::valid_i64_bytes(spec_arg(iv, 3)) {
                    crate::bytesutil::i64_val(spec_arg(iv, 3))
                } else {
                    -1
                };
                match crate::store::live_get(old(srv).db.entries@, key, now) {
                    None => resp_view(o.replies@[0]) == RespData::Array(Seq::empty()),
                    Some(e) => match e.value {
                        crate::store::ValueType::SortedSet(z) => ({
                            let w = crate::zset::zrange_window(z@.len() as int, start, stop);
                            if 0 <= w.0 <= w.1 < z@.len() {
                                resp_view(o.replies@[0]) == crate::list::bulk_array(
                                    crate::zset::zmembers(z@).subrange(w.0, w.1 + 1),
                                )
                            } else {
                                resp_view(o.replies@[0]) == RespData::Array(Seq::empty())
                            }
                        }),
                        _ => resp_view(o.replies@[0]) == RespData::SimpleError(
                            crate::replies::wrongtype_msg(),
                        ),
                    },
                }
            }))
            &&& (cmd@ == "ZCARD".spec_bytes() && iv.len() == 2 ==> match crate::store::live_get(
                old(srv).db.entries@,
                key,
                now,
            ) {
                None => resp_view(o.replies@[0]) == RespData::Integer(0),
                Some(e) => match e.value {
                    crate::store::ValueType::SortedSet(z) => resp_view(o.replies@[0])
                        == RespData::Integer(z@.len() as i64 as int),
                    _ => resp_view(o.replies@[0]) == RespData::SimpleError(
                        crate::replies::wrongtype_msg(),
                    ),
                },
            })
            &&& (cmd@ == "ZSCORE".spec_bytes() && iv.len() == 3 ==> match crate::store::live_get(
                old(srv).db.entries@,
                key,
                now,
            ) {
                None => resp_view(o.replies@[0]) == RespData::NullBulkString,
                Some(e) => match e.value {
                    crate::store::ValueType::SortedSet(z) => match crate::zset::zset_lookup(
                        z@,
                        spec_arg(iv, 2),
                    ) {
                        Some(sv) => resp_view(o.replies@[0]) == RespData::BulkString(
                            crate::zset::score_view_bytes(sv),
                        ),
                        None => resp_view(o.replies@[0]) == RespData::NullBulkString,
                    },
                    _ => resp_view(o.replies@[0]) == RespData::SimpleError(
                        crate::replies::wrongtype_msg(),
                    ),
                },
            })
            &&& (cmd@ == "ZREM".spec_bytes() && iv.len() >= 3 ==> ({
                let cur = crate::store::live_get(old(srv).db.entries@, key, now);
                let bad = cur matches Some(e) && !(e.value is SortedSet);
                match cur {
                    None => resp_view(o.replies@[0]) == RespData::Integer(0)
                        && o.propagated@.len() == (if config.replicaof is None {
                        1int
                    } else {
                        0int
                    }),
                    Some(e) => {
                        if bad {
                            resp_view(o.replies@[0]) == RespData::SimpleError(
                                crate::replies::wrongtype_msg(),
                            ) && o.propagated@.len() == 0
                        } else {
                            let z0 = e.value->SortedSet_0@;
                            let member = spec_arg(iv, 2);
                            let existed = crate::zset::zset_lookup(z0, member) is Some;
                            &&& resp_view(o.replies@[0]) == RespData::Integer(
                                if existed {
                                    1
                                } else {
                                    0
                                },
                            )
                            &&& (crate::store::assoc_get(final(srv).db.entries@, key)
                                matches Some(e2) && e2.expiry == e.expiry && (e2.value
                                matches crate::store::ValueType::SortedSet(z1)
                                && crate::zset::zset_lookup(z1@, member) is None && (forall|
                                m: Seq<u8>,
                            |
                                m != member ==> #[trigger] crate::zset::zset_lookup(z1@, m)
                                    == crate::zset::zset_lookup(z0, m))))
                            &&& (config.replicaof is None ==> o.propagated@.len() == 1)
                        }
                    },
                }
            }))
        }),
{
    proof {
        crate::resp::lemma_resp_seq_view(items@);
        lemma_zset_literal_bytes();
    }
    let is_master = config.replicaof.is_none();
    if bytes_eq_slice(cmd, "ZADD".as_bytes()) && items.len() >= 4 {
        let key = arg_bytes(items, 1);
        let score_arg = arg_bytes(items, 2);
        let member = arg_bytes(items, 3);
        let sc = match crate::score::score_parse(&score_arg) {
            Some(s) => s,
            None => crate::score::score_from_u64(0),
        };
        proof {
            assert(crate::zset::score_view(sc) == spec_zadd_score(score_arg@));
        }
        let reply = srv.db.zadd(&key, sc, &member, now);
        let ok = !is_error_reply(&reply);
        let mut out = reply_outcome(reply);
        if is_master && ok {
            let frame = srv.propagate_frame(items);
            out.propagated.push(frame);
        }
        Some(out)
    } else if bytes_eq_slice(cmd, "ZRANK".as_bytes()) && items.len() >= 3 {
        let key = arg_bytes(items, 1);
        let member = arg_bytes(items, 2);
        Some(reply_outcome(srv.db.zrank(&key, &member, now)))
    } else if bytes_eq_slice(cmd, "ZRANGE".as_bytes()) && items.len() >= 4 {
        let key = arg_bytes(items, 1);
        let start = match arg_int(items, 2) {
            Some(v) => v,
            None => 0,
        };
        let stop = match arg_int(items, 3) {
            Some(v) => v,
            None => -1,
        };
        Some(reply_outcome(srv.db.zrange(&key, start, stop, now)))
    } else if bytes_eq_slice(cmd, "ZCARD".as_bytes()) && items.len() == 2 {
        let key = arg_bytes(items, 1);
        Some(reply_outcome(srv.db.zcard(&key, now)))
    } else if bytes_eq_slice(cmd, "ZSCORE".as_bytes()) && items.len() == 3 {
        let key = arg_bytes(items, 1);
        let member = arg_bytes(items, 2);
        Some(reply_outcome(srv.db.zscore(&key, &member, now)))
    } else if bytes_eq_slice(cmd, "ZREM".as_bytes()) && items.len() >= 3 {
        let key = arg_bytes(items, 1);
        let member = arg_bytes(items, 2);
        let reply = srv.db.zrem(&key, &member, now);
        let ok = !is_error_reply(&reply);
        let mut out = reply_outcome(reply);
        if is_master && ok {
            let frame = srv.propagate_frame(items);
            out.propagated.push(frame);
        }
        Some(out)
    } else {
        None
    }
}


/// The wire bytes of every command literal the dispatcher compares
/// against: distinctness of any two commands follows from the byte
/// values.
pub proof fn lemma_command_bytes()
    ensures
        "PING".spec_bytes() == seq![80u8, 73u8, 78u8, 71u8],
        "ECHO".spec_bytes() == seq![69u8, 67u8, 72u8, 79u8],
        "SET".spec_bytes() == seq![83u8, 69u8, 84u8],
        "GET".spec_bytes() == seq![71u8, 69u8, 84u8],
        "MULTI".spec_bytes() == seq![77u8, 85u8, 76u8, 84u8, 73u8],
        "DISCARD".spec_bytes() == seq![68u8, 73u8, 83u8, 67u8, 65u8, 82u8, 68u8],
        "SUBSCRIBE".spec_bytes() == seq![83u8, 85u8, 66u8, 83u8, 67u8, 82u8, 73u8, 66u8, 69u8],
        "UNSUBSCRIBE".spec_bytes() == seq![85u8, 78u8, 83u8, 85u8, 66u8, 83u8, 67u8, 82u8, 73u8, 66u8, 69u8],
        "DEL".spec_bytes() == seq![68u8, 69u8, 76u8],
        "INCR".spec_bytes() == seq![73u8, 78u8, 67u8, 82u8],
        "TYPE".spec_bytes() == seq![84u8, 89u8, 80u8, 69u8],
        "CONFIG".spec_bytes() == seq![67u8, 79u8, 78u8, 70u8, 73u8, 71u8],
        "KEYS".spec_bytes() == seq![75u8, 69u8, 89u8, 83u8],
        "INFO".spec_bytes() == seq![73u8, 78u8, 70u8, 79u8],
        "REPLCONF".spec_bytes() == seq![82u8, 69u8, 80u8, 76u8, 67u8, 79u8, 78u8, 70u8],
        "WAIT".spec_bytes() == seq![87u8, 65u8, 73u8, 84u8],
        "XADD".spec_bytes() == seq![88u8, 65u8, 68u8, 68u8],
        "XRANGE".spec_bytes() == seq![88u8, 82u8, 65u8, 78u8, 71u8, 69u8],
        "XREAD".spec_bytes() == seq![88u8, 82u8, 69u8, 65u8, 68u8],
        "RPUSH".spec_bytes() == seq![82u8, 80u8, 85u8, 83u8, 72u8],
        "LPUSH".spec_bytes() == seq![76u8, 80u8, 85u8, 83u8, 72u8],
        "LRANGE".spec_bytes() == seq![76u8, 82u8, 65u8, 78u8, 71u8, 69u8],
        "LLEN".spec_bytes() == seq![76u8, 76u8, 69u8, 78u8],
        "LPOP".spec_bytes() == seq![76u8, 80u8, 79u8, 80u8],
        "BLPOP".spec_bytes() == seq![66u8, 76u8, 80u8, 79u8, 80u8],
        "PUBLISH".spec_bytes() == seq![80u8, 85u8, 66u8, 76u8, 73u8, 83u8, 72u8],
        "ZADD".spec_bytes() == seq![90u8, 65u8, 68u8, 68u8],
        "ZRANK".spec_bytes() == seq![90u8, 82u8, 65u8, 78u8, 75u8],
        "ZRANGE".spec_bytes() == seq![90u8, 82u8, 65u8, 78u8, 71u8, 69u8],
        "ZCARD".spec_bytes() == seq![90u8, 67u8, 65u8, 82u8, 68u8],
        "ZSCORE".spec_bytes() == seq![90u8, 83u8, 67u8, 79u8, 82u8, 69u8],
        "ZREM".spec_bytes() == seq![90u8, 82u8, 69u8, 77u8],
        "GEOADD".spec_bytes() == seq![71u8, 69u8, 79u8, 65u8, 68u8, 68u8],
        "GEOPOS".spec_bytes() == seq![71u8, 69u8, 79u8, 80u8, 79u8, 83u8],
        "GEODIST".spec_bytes() == seq![71u8, 69u8, 79u8, 68u8, 73u8, 83u8, 84u8],
        "GEOSEARCH".spec_bytes() == seq![71u8, 69u8, 79u8, 83u8, 69u8, 65u8, 82u8, 67u8, 72u8],
        "EXEC".spec_bytes() == seq![69u8, 88u8, 69u8, 67u8],
        "ACL".spec_bytes() == seq![65u8, 67u8, 76u8],
        "AUTH".spec_bytes() == seq![65u8, 85u8, 84u8, 72u8],
        "PSYNC".spec_bytes() == seq![80u8, 83u8, 89u8, 78u8, 67u8],
{
    broadcast use vstd::string::group_string_axioms;
    broadcast use vstd::utf8::is_ascii_chars_encode_utf8;

    reveal_strlit("PING");
    assert(vstd::utf8::is_ascii_chars("PING"@));
    assert("PING".spec_bytes() =~= seq![80u8, 73u8, 78u8, 71u8]);
    reveal_strlit("ECHO");
    assert(vstd::utf8::is_ascii_chars("ECHO"@));
    assert("ECHO".spec_bytes() =~= seq![69u8, 67u8, 72u8, 79u8]);
    reveal_strlit("SET");
    assert(vstd::utf8::is_ascii_chars("SET"@));
    assert("SET".spec_bytes() =~= seq![83u8, 69u8, 84u8]);
    reveal_strlit("GET");
    assert(vstd::utf8::is_ascii_chars("GET"@));
    assert("GET".spec_bytes() =~= seq![71u8, 69u8, 84u8]);
    reveal_strlit("MULTI");
    assert(vstd::utf8::is_ascii_chars("MULTI"@));
    assert("MULTI".spec_bytes() =~= seq![77u8, 85u8, 76u8, 84u8, 73u8]);
    reveal_strlit("DISCARD");
    assert(vstd::utf8::is_ascii_chars("DISCARD"@));
    assert("DISCARD".spec_bytes() =~= seq![68u8, 73u8, 83u8, 67u8, 65u8, 82u8, 68u8]);
    reveal_strlit("SUBSCRIBE");
    assert(vstd::utf8::is_ascii_chars("SUBSCRIBE"@));
    assert("SUBSCRIBE".spec_bytes() =~= seq![83u8, 85u8, 66u8, 83u8, 67u8, 82u8, 73u8, 66u8, 69u8]);
    reveal_strlit("UNSUBSCRIBE");
    assert(vstd::utf8::is_ascii_chars("UNSUBSCRIBE"@));
    assert("UNSUBSCRIBE".spec_bytes() =~= seq![85u8, 78u8, 83u8, 85u8, 66u8, 83u8, 67u8, 82u8, 73u8, 66u8, 69u8]);
    reveal_strlit("DEL");
    assert(vstd::utf8::is_ascii_chars("DEL"@));
    assert("DEL".spec_bytes() =~= seq![68u8, 69u8, 76u8]);
    reveal_strlit("INCR");
    assert(vstd::utf8::is_ascii_chars("INCR"@));
    assert("INCR".spec_bytes() =~= seq![73u8, 78u8, 67u8, 82u8]);
    reveal_strlit("TYPE");
    assert(vstd::utf8::is_ascii_chars("TYPE"@));
    assert("TYPE".spec_bytes() =~= seq![84u8, 89u8, 80u8, 69u8]);
    reveal_strlit("CONFIG");
    assert(vstd::utf8::is_ascii_chars("CONFIG"@));
    assert("CONFIG".spec_bytes() =~= seq![67u8, 79u8, 78u8, 70u8, 73u8, 71u8]);
    reveal_strlit("KEYS");
    assert(vstd::utf8::is_ascii_chars("KEYS"@));
    assert("KEYS".spec_bytes() =~= seq![75u8, 69u8, 89u8, 83u8]);
    reveal_strlit("INFO");
    assert(vstd::utf8::is_ascii_chars("INFO"@));
    assert("INFO".spec_bytes() =~= seq![73u8, 78u8, 70u8, 79u8]);
    reveal_strlit("REPLCONF");
    assert(vstd::utf8::is_ascii_chars("REPLCONF"@));
    assert("REPLCONF".spec_bytes() =~= seq![82u8, 69u8, 80u8, 76u8, 67u8, 79u8, 78u8, 70u8]);
    reveal_strlit("WAIT");
    assert(vstd::utf8::is_ascii_chars("WAIT"@));
    assert("WAIT".spec_bytes() =~= seq![87u8, 65u8, 73u8, 84u8]);
    reveal_strlit("XADD");
    assert(vstd::utf8::is_ascii_chars("XADD"@));
    assert("XADD".spec_bytes() =~= seq![88u8, 65u8, 68u8, 68u8]);
    reveal_strlit("XRANGE");
    assert(vstd::utf8::is_ascii_chars("XRANGE"@));
    assert("XRANGE".spec_bytes() =~= seq![88u8, 82u8, 65u8, 78u8, 71u8, 69u8]);
    reveal_strlit("XREAD");
    assert(vstd::utf8::is_ascii_chars("XREAD"@));
    assert("XREAD".spec_bytes() =~= seq![88u8, 82u8, 69u8, 65u8, 68u8]);
    reveal_strlit("RPUSH");
    assert(vstd::utf8::is_ascii_chars("RPUSH"@));
    assert("RPUSH".spec_bytes() =~= seq![82u8, 80u8, 85u8, 83u8, 72u8]);
    reveal_strlit("LPUSH");
    assert(vstd::utf8::is_ascii_chars("LPUSH"@));
    assert("LPUSH".spec_bytes() =~= seq![76u8, 80u8, 85u8, 83u8, 72u8]);
    reveal_strlit("LRANGE");
    assert(vstd::utf8::is_ascii_chars("LRANGE"@));
    assert("LRANGE".spec_bytes() =~= seq![76u8, 82u8, 65u8, 78u8, 71u8, 69u8]);
    reveal_strlit("LLEN");
    assert(vstd::utf8::is_ascii_chars("LLEN"@));
    assert("LLEN".spec_bytes() =~= seq![76u8, 76u8, 69u8, 78u8]);
    reveal_strlit("LPOP");
    assert(vstd::utf8::is_ascii_chars("LPOP"@));
    assert("LPOP".spec_bytes() =~= seq![76u8, 80u8, 79u8, 80u8]);
    reveal_strlit("BLPOP");
    assert(vstd::utf8::is_ascii_chars("BLPOP"@));
    assert("BLPOP".spec_bytes() =~= seq![66u8, 76u8, 80u8, 79u8, 80u8]);
    reveal_strlit("PUBLISH");
    assert(vstd::utf8::is_ascii_chars("PUBLISH"@));
    assert("PUBLISH".spec_bytes() =~= seq![80u8, 85u8, 66u8, 76u8, 73u8, 83u8, 72u8]);
    reveal_strlit("ZADD");
    assert(vstd::utf8::is_ascii_chars("ZADD"@));
    assert("ZADD".spec_bytes() =~= seq![90u8, 65u8, 68u8, 68u8]);
    reveal_strlit("ZRANK");
    assert(vstd::utf8::is_ascii_chars("ZRANK"@));
    assert("ZRANK".spec_bytes() =~= seq![90u8, 82u8, 65u8, 78u8, 75u8]);
    reveal_strlit("ZRANGE");
    assert(vstd::utf8::is_ascii_chars("ZRANGE"@));
    assert("ZRANGE".spec_bytes() =~= seq![90u8, 82u8, 65u8, 78u8, 71u8, 69u8]);
    reveal_strlit("ZCARD");
    assert(vstd::utf8::is_ascii_chars("ZCARD"@));
    assert("ZCARD".spec_bytes() =~= seq![90u8, 67u8, 65u8, 82u8, 68u8]);
    reveal_strlit("ZSCORE");
    assert(vstd::utf8::is_ascii_chars("ZSCORE"@));
    assert("ZSCORE".spec_bytes() =~= seq![90u8, 83u8, 67u8, 79u8, 82u8, 69u8]);
    reveal_strlit("ZREM");
    assert(vstd::utf8::is_ascii_chars("ZREM"@));
    assert("ZREM".spec_bytes() =~= seq![90u8, 82u8, 69u8, 77u8]);
    reveal_strlit("GEOADD");
    assert(vstd::utf8::is_ascii_chars("GEOADD"@));
    assert("GEOADD".spec_bytes() =~= seq![71u8, 69u8, 79u8, 65u8, 68u8, 68u8]);
    reveal_strlit("GEOPOS");
    assert(vstd::utf8::is_ascii_chars("GEOPOS"@));
    assert("GEOPOS".spec_bytes() =~= seq![71u8, 69u8, 79u8, 80u8, 79u8, 83u8]);
    reveal_strlit("GEODIST");
    assert(vstd::utf8::is_ascii_chars("GEODIST"@));
    assert("GEODIST".spec_bytes() =~= seq![71u8, 69u8, 79u8, 68u8, 73u8, 83u8, 84u8]);
    reveal_strlit("GEOSEARCH");
    assert(vstd::utf8::is_ascii_chars("GEOSEARCH"@));
    assert("GEOSEARCH".spec_bytes() =~= seq![71u8, 69u8, 79u8, 83u8, 69u8, 65u8, 82u8, 67u8, 72u8]);
    reveal_strlit("EXEC");
    assert(vstd::utf8::is_ascii_chars("EXEC"@));
    assert("EXEC".spec_bytes() =~= seq![69u8, 88u8, 69u8, 67u8]);
    reveal_strlit("ACL");
    assert(vstd::utf8::is_ascii_chars("ACL"@));
    assert("ACL".spec_bytes() =~= seq![65u8, 67u8, 76u8]);
    reveal_strlit("AUTH");
    assert(vstd::utf8::is_ascii_chars("AUTH"@));
    assert("AUTH".spec_bytes() =~= seq![65u8, 85u8, 84u8, 72u8]);
    reveal_strlit("PSYNC");
    assert(vstd::utf8::is_ascii_chars("PSYNC"@));
    assert("PSYNC".spec_bytes() =~= seq![80u8, 83u8, 89u8, 78u8, 67u8]);
}

/// The wire bytes of the list and pub/sub command literals.
proof fn lemma_list_literal_bytes()
    ensures
        "RPUSH".spec_bytes() == seq![82u8, 80u8, 85u8, 83u8, 72u8],
        "LPUSH".spec_bytes() == seq![76u8, 80u8, 85u8, 83u8, 72u8],
        "LRANGE".spec_bytes() == seq![76u8, 82u8, 65u8, 78u8, 71u8, 69u8],
        "LLEN".spec_bytes() == seq![76u8, 76u8, 69u8, 78u8],
        "LPOP".spec_bytes() == seq![76u8, 80u8, 79u8, 80u8],
        "BLPOP".spec_bytes() == seq![66u8, 76u8, 80u8, 79u8, 80u8],
        "PUBLISH".spec_bytes() == seq![80u8, 85u8, 66u8, 76u8, 73u8, 83u8, 72u8],
{
    broadcast use vstd::string::group_string_axioms;
    broadcast use vstd::utf8::is_ascii_chars_encode_utf8;

    reveal_strlit("RPUSH");
    assert(vstd::utf8::is_ascii_chars("RPUSH"@));
    assert("RPUSH".spec_bytes() =~= seq![82u8, 80u8, 85u8, 83u8, 72u8]);
    reveal_strlit("LPUSH");
    assert(vstd::utf8::is_ascii_chars("LPUSH"@));
    assert("LPUSH".spec_bytes() =~= seq![76u8, 80u8, 85u8, 83u8, 72u8]);
    reveal_strlit("LRANGE");
    assert(vstd::utf8::is_ascii_chars("LRANGE"@));
    assert("LRANGE".spec_bytes() =~= seq![76u8, 82u8, 65u8, 78u8, 71u8, 69u8]);
    reveal_strlit("LLEN");
    assert(vstd::utf8::is_ascii_chars("LLEN"@));
    assert("LLEN".spec_bytes() =~= seq![76u8, 76u8, 69u8, 78u8]);
    reveal_strlit("LPOP");
    assert(vstd::utf8::is_ascii_chars("LPOP"@));
    assert("LPOP".spec_bytes() =~= seq![76u8, 80u8, 79u8, 80u8]);
    reveal_strlit("BLPOP");
    assert(vstd::utf8::is_ascii_chars("BLPOP"@));
    assert("BLPOP".spec_bytes() =~= seq![66u8, 76u8, 80u8, 79u8, 80u8]);
    reveal_strlit("PUBLISH");
    assert(vstd::utf8::is_ascii_chars("PUBLISH"@));
    assert("PUBLISH".spec_bytes() =~= seq![80u8, 85u8, 66u8, 76u8, 73u8, 83u8, 72u8]);
}

/// The list and pub/sub commands of the dispatcher.
pub open spec fn spec_list_cmds(c: Seq<u8>) -> bool {
    ||| c == "RPUSH".spec_bytes()
    ||| c == "LPUSH".spec_bytes()
    ||| c == "LRANGE".spec_bytes()
    ||| c == "LLEN".spec_bytes()
    ||| c == "LPOP".spec_bytes()
    ||| c == "BLPOP".spec_bytes()
    ||| c == "PUBLISH".spec_bytes()
}

/// The `LPOP` count a command denotes: the parsed third argument, one
/// when it does not parse, one when it is absent.
pub open spec fn spec_lpop_count(iv: Seq<RespData>) -> int {
    if iv.len() > 2 {
        if crate::bytesutil::valid_i64_bytes(spec_arg(iv, 2)) {
            crate::bytesutil::i64_val(spec_arg(iv, 2))
        } else {
            1
        }
    } else {
        1
    }
}

/// The list commands (`RPUSH`, `LPUSH`, `LRANGE`, `LLEN`, `LPOP`,
/// `BLPOP`) and `PUBLISH`.  `None` means the command (with these
/// arguments) is none of them and nothing was touched.
#[verifier::rlimit(100)]
#[verifier::spinoff_prover]
fn dispatch_lists(
    cmd: &Vec<u8>,
    items: &Vec<RespValue>,
    state: &ClientState,
    srv: &mut ServerState,
    config: &ServerConfig,
    now: u64,
) -> (r: Option<Outcome>)
    requires
        old(srv).wf(),
        items@.len() <= 0x7fff_ffff_ffff_ffff,
        cmd@ == spec_upper(spec_arg(resp_seq_view(items@), 0)),
    ensures
        final(srv).wf(),
        r is None ==> *final(srv) == *old(srv) && !((cmd@ == "RPUSH".spec_bytes() || cmd@
            == "LPUSH".spec_bytes()) && items@.len() >= 3) && !(cmd@ == "LRANGE".spec_bytes()
            && items@.len() == 4) && !(cmd@ == "LLEN".spec_bytes() && items@.len() == 2) && !(
        cmd@ == "LPOP".spec_bytes() && items@.len() >= 2) && !(cmd@ == "BLPOP".spec_bytes()
            && items@.len() >= 3) && !(cmd@ == "PUBLISH".spec_bytes() && items@.len() >= 3),
        r matches Some(o) ==> ({
            let iv = resp_seq_view(items@);
            let key = spec_arg(iv, 1);
            &&& one_reply(o)
            &&& spec_known_cmd(cmd@)
            &&& spec_list_cmds(cmd@)
            &&& o.raw is None
            &&& o.propagated@.len() <= 1
            &&& (o.propagated@.len() >= 1 ==> config.replicaof is None)
            &&& (config.replicaof matches Some(t) ==> o.propagated@.len() == 0)
            &&& (!spec_replicated_cmd(cmd@) ==> o.propagated@.len() == 0)
            &&& (o.propagated@.len() == 1 ==> o.propagated@[0]@ == crate::resp::spec_encode(
                RespData::Array(iv),
            ) && final(srv).replicas.offsets@.len() == old(srv).replicas.offsets@.len() && (
            forall|i: int|
                0 <= i < old(srv).replicas.offsets@.len() ==> final(srv).replicas.offsets@[i]
                    == crate::repl::sat_add_i64(
                    #[trigger] old(srv).replicas.offsets@[i],
                    o.propagated@[0]@.len() as int,
                )))
            &&& ((cmd@ == "RPUSH".spec_bytes() || cmd@ == "LPUSH".spec_bytes()) && iv.len() >= 3
                ==> ({
                let vals = Seq::new((iv.len() - 2) as nat, |j: int| spec_arg(iv, 2 + j));
                let front = cmd@ == "LPUSH".spec_bytes();
                let cur = crate::store::live_get(old(srv).db.entries@, key, now);
                let old_list: Seq<Seq<u8>> = match cur {
                    Some(e) => match e.value {
                        crate::store::ValueType::List(l) => crate::bytesutil::views_of(l@),
                        _ => Seq::empty(),
                    },
                    None => Seq::empty(),
                };
                let bad = cur matches Some(e) && !(e.value is List);
                if bad {
                    &&& resp_view(o.replies@[0]) == RespData::SimpleError(
                        crate::replies::wrongtype_msg(),
                    )
                    &&& o.action is None
                    &&& o.propagated@.len() == 0
                    &&& final(srv).blocked.waiters@ == old(srv).blocked.waiters@
                    &&& crate::store::assoc_get(final(srv).db.entries@, key)
                        == crate::store::assoc_get(old(srv).db.entries@, key)
                } else {
                    let pushed = crate::list::pushed_list(old_list, vals, front);
                    &&& resp_view(o.replies@[0]) == RespData::Integer(pushed.len() as i64 as int)
                    &&& (config.replicaof is None ==> o.propagated@.len() == 1)
                    &&& match crate::list::spec_first_waiter(old(srv).blocked.waiters@, key) {
                        None => {
                            &&& final(srv).blocked.waiters@ == old(srv).blocked.waiters@
                            &&& o.action is None
                            &&& (crate::store::assoc_get(final(srv).db.entries@, key)
                                matches Some(e2) && e2.expiry is None && (e2.value
                                matches crate::store::ValueType::List(nl)
                                && crate::bytesutil::views_of(nl@) == pushed))
                        },
                        Some(i) => {
                            &&& final(srv).blocked.waiters@ == old(srv).blocked.waiters@.remove(
                                i as int,
                            )
                            &&& (o.action matches Some(a) && (a matches Action::WakeBlpop {
                                client,
                                key: wk,
                                value,
                            } && client == old(srv).blocked.waiters@[i as int].client && wk@ == key
                                && value@ == pushed[0]))
                            &&& (crate::store::assoc_get(final(srv).db.entries@, key)
                                matches Some(e2) && e2.expiry is None && (e2.value
                                matches crate::store::ValueType::List(nl)
                                && crate::bytesutil::views_of(nl@) == pushed.subrange(
                                1,
                                pushed.len() as int,
                            )))
                        },
                    }
                }
            }))
            &&& (cmd@ == "LRANGE".spec_bytes() && iv.len() == 4 ==> ({
                let start: int = if crate::bytesutil::valid_i64_bytes(spec_arg(iv, 2)) {
                    crate::bytesutil::i64_val(spec_arg(iv, 2))
                } else {
                    0
                };
                let stop: int = if crate::bytesutil::valid_i64_bytes(spec_arg(iv, 3)) {
                    crate::bytesutil::i64_val(spec_arg(iv, 3))
                } else {
                    0
                };
                &&& o.action is None
                &&& match crate::store::live_get(old(srv).db.entries@, key, now) {
                    None => resp_view(o.replies@[0]) == RespData::Array(Seq::empty()),
                    Some(e) => match e.value {
                        crate::store::ValueType::List(l) => ({
                            let w = crate::list::lrange_window(l@.len() as int, start, stop);
                            if w.0 < w.1 {
                                resp_view(o.replies@[0]) == crate::list::bulk_array(
                                    crate::bytesutil::views_of(l@).subrange(w.0, w.1),
                                )
                            } else {
                                resp_view(o.replies@[0]) == RespData::Array(Seq::empty())
                            }
                        }),
                        _ => resp_view(o.replies@[0]) == RespData::SimpleError(
                            crate::replies::wrongtype_msg(),
                        ),
                    },
                }
            }))
            &&& (cmd@ == "LLEN".spec_bytes() && iv.len() == 2 ==> o.action is None
                && match crate::store::live_get(old(srv).db.entries@, key, now) {
                None => resp_view(o.replies@[0]) == RespData::Integer(0),
                Some(e) => match e.value {
                    crate::store::ValueType::List(l) => resp_view(o.replies@[0])
                        == RespData::Integer(l@.len() as i64 as int),
                    _ => resp_view(o.replies@[0]) == RespData::SimpleError(
                        crate::replies::wrongtype_msg(),
                    ),
                },
            })
            &&& (cmd@ == "LPOP".spec_bytes() && iv.len() >= 2 ==> ({
                let req = spec_lpop_count(iv);
                let counted = iv.len() > 2;
                &&& o.action is None
                &&& (config.replicaof is None && !(resp_view(o.replies@[0]) is SimpleError)
                    ==> o.propagated@.len() == 1)
                &&& if req < 0 {
                    resp_view(o.replies@[0]) == RespData::SimpleError(
                        crate::replies::out_of_range_msg(),
                    )
                } else {
                    match crate::store::live_get(old(srv).db.entries@, key, now) {
                        None => resp_view(o.replies@[0]) == RespData::NullBulkString,
                        Some(e) => match e.value {
                            crate::store::ValueType::List(l) => ({
                                let lv = crate::bytesutil::views_of(l@);
                                let n = if req < lv.len() {
                                    req
                                } else {
                                    lv.len() as int
                                };
                                &&& (crate::store::assoc_get(final(srv).db.entries@, key)
                                    matches Some(e2) && e2.expiry == e.expiry && (e2.value
                                    matches crate::store::ValueType::List(nl)
                                    && crate::bytesutil::views_of(nl@) == lv.subrange(
                                    n,
                                    lv.len() as int,
                                )))
                                &&& if req == 0 {
                                    resp_view(o.replies@[0]) == RespData::Array(Seq::empty())
                                } else if n == 0 {
                                    resp_view(o.replies@[0]) == RespData::NullBulkString
                                } else if !counted {
                                    resp_view(o.replies@[0]) == RespData::BulkString(lv[0])
                                } else {
                                    resp_view(o.replies@[0]) == crate::list::bulk_array(
                                        lv.subrange(0, n),
                                    )
                                }
                            }),
                            _ => resp_view(o.replies@[0]) == RespData::SimpleError(
                                crate::replies::wrongtype_msg(),
                            ),
                        },
                    }
                }
            }))
            &&& (cmd@ == "BLPOP".spec_bytes() && iv.len() >= 3 ==> ({
                let tms: u64 = if crate::score::valid_score_bytes(spec_arg(iv, 2)) {
                    spec_timeout_ms(crate::score::spec_score_parts(spec_arg(iv, 2)))
                } else {
                    0
                };
                let cur = crate::store::live_get(old(srv).db.entries@, key, now);
                let has = cur matches Some(e) && (e.value
                    matches crate::store::ValueType::List(l) && crate::bytesutil::views_of(
                    l@,
                ).len() > 0);
                let bad = cur matches Some(e) && !(e.value is List);
                &&& o.propagated@.len() == 0
                &&& if bad {
                    &&& resp_view(o.replies@[0]) == RespData::SimpleError(
                        crate::replies::wrongtype_msg(),
                    )
                    &&& o.action is None
                    &&& final(srv).blocked.waiters@ == old(srv).blocked.waiters@
                } else if has {
                    let e = cur->Some_0;
                    let lv = crate::bytesutil::views_of(e.value->List_0@);
                    &&& resp_view(o.replies@[0]) == RespData::Array(
                        seq![RespData::BulkString(key), RespData::BulkString(lv[0])],
                    )
                    &&& o.action is None
                    &&& final(srv).blocked.waiters@ == old(srv).blocked.waiters@
                    &&& (crate::store::assoc_get(final(srv).db.entries@, key) matches Some(e2)
                        && e2.expiry == e.expiry && (e2.value
                        matches crate::store::ValueType::List(nl) && crate::bytesutil::views_of(
                        nl@,
                    ) == lv.subrange(1, lv.len() as int)))
                } else {
                    let w = final(srv).blocked.waiters@;
                    let w0 = old(srv).blocked.waiters@;
                    &&& (o.action matches Some(a) && (a matches Action::Block {
                        key: bk,
                        timeout_ms,
                    } && bk@ == key && timeout_ms == tms))
                    &&& w.len() == w0.len() + 1
                    &&& w.subrange(0, w0.len() as int) == w0
                    &&& w.last().list_key@ == key
                    &&& w.last().client == state.client_id
                }
            }))
            &&& (cmd@ == "PUBLISH".spec_bytes() && iv.len() >= 3 ==> ({
                let l = match crate::pubsub::chan_get(old(srv).channels.channels@, key) {
                    Some(l) => l,
                    None => Seq::empty(),
                };
                &&& *final(srv) == *old(srv)
                &&& resp_view(o.replies@[0]) == RespData::Integer(l.len() as i64 as int)
                &&& (o.action matches Some(a) && (a matches Action::PublishTo {
                    clients,
                    channel,
                    message,
                } && clients@ == l && channel@ == key && message@ == spec_arg(iv, 2)))
            }))
        }),
{
    proof {
        crate::resp::lemma_resp_seq_view(items@);
        lemma_list_literal_bytes();
    }
    let is_master = config.replicaof.is_none();
    if (bytes_eq_slice(cmd, "RPUSH".as_bytes()) || bytes_eq_slice(cmd, "LPUSH".as_bytes()))
        && items.len() >= 3 {
        let front = bytes_eq_slice(cmd, "LPUSH".as_bytes());
        let key = arg_bytes(items, 1);
        let values = collect_args_from(items, 2);
        proof {
            let iv = resp_seq_view(items@);
            let vals = Seq::new((iv.len() - 2) as nat, |j: int| spec_arg(iv, 2 + j));
            crate::bytesutil::lemma_views_of(values@);
            assert forall|j: int|
                0 <= j < values@.len() implies crate::bytesutil::views_of(values@)[j] == vals[j]
                by {
                assert(crate::bytesutil::views_of(values@)[j] == values@[j]@);
            }
            assert(crate::bytesutil::views_of(values@) =~= vals);
            assert(values@.len() > 0);
        }
        let (reply, wake) = srv.db.handle_push(&key, &values, front, now, &mut srv.blocked);
        let ok = !is_error_reply(&reply);
        let mut out = match wake {
            Some(t) => reply_action_outcome(
                reply,
                Action::WakeBlpop { client: t.0, key: t.1, value: t.2 },
            ),
            None => reply_outcome(reply),
        };
        if is_master && ok {
            let frame = srv.propagate_frame(items);
            out.propagated.push(frame);
        }
        Some(out)
    } else if bytes_eq_slice(cmd, "LRANGE".as_bytes()) && items.len() == 4 {
        let key = arg_bytes(items, 1);
        let start = match arg_int(items, 2) {
            Some(v) => v,
            None => 0,
        };
        let end = match arg_int(items, 3) {
            Some(v) => v,
            None => 0,
        };
        Some(reply_outcome(srv.db.handle_lrange(&key, start, end, now)))
    } else if bytes_eq_slice(cmd, "LLEN".as_bytes()) && items.len() == 2 {
        let key = arg_bytes(items, 1);
        Some(reply_outcome(srv.db.handle_llen(&key, now)))
    } else if bytes_eq_slice(cmd, "LPOP".as_bytes()) && items.len() >= 2 {
        let key = arg_bytes(items, 1);
        let count: Option<i64> = if items.len() > 2 {
            match arg_int(items, 2) {
                Some(v) => Some(v),
                None => Some(1),
            }
        } else {
            None
        };
        let reply = srv.db.handle_lpop(&key, count, now);
        let ok = !is_error_reply(&reply);
        let mut out = reply_outcome(reply);
        if is_master && ok {
            let frame = srv.propagate_frame(items);
            out.propagated.push(frame);
        }
        Some(out)
    } else if bytes_eq_slice(cmd, "BLPOP".as_bytes()) && items.len() >= 3 {
        let key = arg_bytes(items, 1);
        let timeout_arg = arg_bytes(items, 2);
        let timeout_ms = timeout_ms_from_bytes(&timeout_arg);
        match srv.db.handle_blpop(&key, state.client_id, now, &mut srv.blocked) {
            Some(reply) => Some(reply_outcome(reply)),
            None => Some(blocked_outcome(Action::Block { key, timeout_ms })),
        }
    } else if bytes_eq_slice(cmd, "PUBLISH".as_bytes()) && items.len() >= 3 {
        let channel = arg_bytes(items, 1);
        let message = arg_bytes(items, 2);
        let (count, clients) = srv.channels.publish_targets(&channel);
        Some(
            reply_action_outcome(
                RespValue::Integer(count),
                Action::PublishTo { clients, channel, message },
            ),
        )
    } else {
        None
    }
}


/// The wire bytes of the stream command literals.
proof fn lemma_stream_literal_bytes()
    ensures
        "XADD".spec_bytes() == seq![88u8, 65u8, 68u8, 68u8],
        "XRANGE".spec_bytes() == seq![88u8, 82u8, 65u8, 78u8, 71u8, 69u8],
        "XREAD".spec_bytes() == seq![88u8, 82u8, 69u8, 65u8, 68u8],
{
    broadcast use vstd::string::group_string_axioms;
    broadcast use vstd::utf8::is_ascii_chars_encode_utf8;

    reveal_strlit("XADD");
    assert(vstd::utf8::is_ascii_chars("XADD"@));
    assert("XADD".spec_bytes() =~= seq![88u8, 65u8, 68u8, 68u8]);
    reveal_strlit("XRANGE");
    assert(vstd::utf8::is_ascii_chars("XRANGE"@));
    assert("XRANGE".spec_bytes() =~= seq![88u8, 82u8, 65u8, 78u8, 71u8, 69u8]);
    reveal_strlit("XREAD");
    assert(vstd::utf8::is_ascii_chars("XREAD"@));
    assert("XREAD".spec_bytes() =~= seq![88u8, 82u8, 69u8, 65u8, 68u8]);
}

/// The stream commands of the dispatcher.
pub open spec fn spec_stream_cmds(c: Seq<u8>) -> bool {
    ||| c == "XADD".spec_bytes()
    ||| c == "XRANGE".spec_bytes()
    ||| c == "XREAD".spec_bytes()
}

/// The field pairs an `XADD` frame carries after the id.
pub open spec fn spec_xadd_fields(iv: Seq<RespData>) -> Seq<(Seq<u8>, Seq<u8>)> {
    Seq::new(((iv.len() - 3) / 2) as nat, |j: int| (spec_arg(iv, 3 + 2 * j), spec_arg(iv, 4 + 2 * j)))
}

/// The stream commands: `XADD`, `XRANGE` and `XREAD`.  `None` means the
/// command (with these arguments) is none of them and nothing was
/// touched.
#[verifier::rlimit(100)]
#[verifier::spinoff_prover]
fn dispatch_streams(
    cmd: &Vec<u8>,
    items: &Vec<RespValue>,
    srv: &mut ServerState,
    now: u64,
    wall_ms: u64,
) -> (r: Option<Outcome>)
    requires
        old(srv).wf(),
        items@.len() <= 0x7fff_ffff_ffff_ffff,
    ensures
        final(srv).wf(),
        r is None ==> *final(srv) == *old(srv) && !(cmd@ == "XADD".spec_bytes() && items@.len()
            >= 5) && !(cmd@ == "XRANGE".spec_bytes() && items@.len() >= 4) && !(cmd@
            == "XREAD".spec_bytes() && items@.len() >= 4),
        r matches Some(o) ==> ({
            let iv = resp_seq_view(items@);
            let key = spec_arg(iv, 1);
            &&& one_reply(o)
            &&& spec_known_cmd(cmd@)
            &&& spec_stream_cmds(cmd@)
            &&& o.raw is None
            &&& o.propagated@.len() == 0
            &&& final(srv).blocked == old(srv).blocked
            &&& final(srv).channels == old(srv).channels
            &&& final(srv).users == old(srv).users
            &&& final(srv).replicas == old(srv).replicas
            &&& (cmd@ == "XADD".spec_bytes() && iv.len() >= 5 ==> ({
                if (iv.len() - 3) % 2 != 0 {
                    &&& *final(srv) == *old(srv)
                    &&& o.action is None
                    &&& resp_view(o.replies@[0]) == RespData::SimpleString(
                        "ERR wrong number of arguments for 'xadd' command".spec_bytes(),
                    )
                } else {
                    match crate::stream::spec_parse_xadd_id(spec_arg(iv, 2)) {
                        None => {
                            &&& *final(srv) == *old(srv)
                            &&& o.action is None
                            &&& resp_view(o.replies@[0]) == RespData::SimpleError(
                                "ERR Invalid ID format".spec_bytes(),
                            )
                        },
                        Some(id) => ({
                            let cur = crate::store::live_get(old(srv).db.entries@, key, now);
                            let bad = cur matches Some(e) && !(e.value is Stream);
                            let s0: Seq<crate::stream::StreamEntry> = match cur {
                                Some(e) => match e.value {
                                    crate::store::ValueType::Stream(s) => s.entries@,
                                    _ => Seq::empty(),
                                },
                                None => Seq::empty(),
                            };
                            &&& (forall|k2: Seq<u8>|
                                k2 != key ==> #[trigger] crate::store::assoc_get(
                                    final(srv).db.entries@,
                                    k2,
                                ) == crate::store::assoc_get(old(srv).db.entries@, k2))
                            &&& if bad {
                                resp_view(o.replies@[0]) == RespData::SimpleError(
                                    crate::replies::wrongtype_msg(),
                                ) && o.action is None
                            } else {
                                let top = if s0.len() == 0 {
                                    None
                                } else {
                                    Some((s0.last().ms, s0.last().seq))
                                };
                                let g = crate::stream::generated_id(id, wall_ms, top);
                                if g.0 == 0 && g.1 == 0 {
                                    &&& resp_view(o.replies@[0]) == RespData::SimpleError(
                                        crate::replies::xadd_zero_msg(),
                                    )
                                    &&& o.action is None
                                    &&& match cur {
                                        Some(_) => crate::store::assoc_get(
                                            final(srv).db.entries@,
                                            key,
                                        ) == crate::store::assoc_get(old(srv).db.entries@, key),
                                        None => crate::store::assoc_get(
                                            final(srv).db.entries@,
                                            key,
                                        ) is None,
                                    }
                                } else if top matches Some(t) && !crate::stream::id_lt(
                                    t.0,
                                    t.1,
                                    g.0,
                                    g.1,
                                ) {
                                    &&& resp_view(o.replies@[0]) == RespData::SimpleError(
                                        crate::replies::xadd_small_msg(),
                                    )
                                    &&& o.action is None
                                    &&& match cur {
                                        Some(_) => crate::store::assoc_get(
                                            final(srv).db.entries@,
                                            key,
                                        ) == crate::store::assoc_get(old(srv).db.entries@, key),
                                        None => crate::store::assoc_get(
                                            final(srv).db.entries@,
                                            key,
                                        ) is None,
                                    }
                                } else {
                                    &&& resp_view(o.replies@[0]) == RespData::BulkString(
                                        crate::stream::id_bytes(g.0, g.1),
                                    )
                                    &&& (o.action matches Some(a) && a is NotifyStream)
                                    &&& (crate::store::assoc_get(final(srv).db.entries@, key)
                                        matches Some(e2) && e2.expiry is None && (e2.value
                                        matches crate::store::ValueType::Stream(s1)
                                        && s1.entries@.len() == s0.len() + 1
                                        && s1.entries@.last().ms == g.0 && s1.entries@.last().seq
                                        == g.1 && crate::stream::fields_view(
                                        s1.entries@.last().fields@,
                                    ) == spec_xadd_fields(iv) && (forall|i: int|
                                        0 <= i < s0.len() ==> (#[trigger] s1.entries@[i]).ms
                                            == s0[i].ms && s1.entries@[i].seq == s0[i].seq
                                            && crate::stream::fields_view(s1.entries@[i].fields@)
                                            == crate::stream::fields_view(s0[i].fields@))))
                                }
                            }
                        }),
                    }
                }
            }))
            &&& (cmd@ == "XRANGE".spec_bytes() && iv.len() >= 4 ==> ({
                let lo = match crate::stream::spec_range_bound(spec_arg(iv, 2), false) {
                    Some(b) => b,
                    None => (0u64, 0u64),
                };
                let hi = match crate::stream::spec_range_bound(spec_arg(iv, 3), true) {
                    Some(b) => b,
                    None => (u64::MAX, u64::MAX),
                };
                &&& o.action is None
                &&& match crate::store::live_get(old(srv).db.entries@, key, now) {
                    None => resp_view(o.replies@[0]) == RespData::Array(Seq::empty()),
                    Some(e) => match e.value {
                        crate::store::ValueType::Stream(s) => resp_view(o.replies@[0])
                            == RespData::Array(
                            crate::stream::entries_reply(
                                crate::stream::range_filter(s.entries@, lo, hi),
                            ),
                        ),
                        _ => resp_view(o.replies@[0]) == RespData::SimpleError(
                            crate::replies::wrongtype_msg(),
                        ),
                    },
                }
            }))
            &&& (cmd@ == "XREAD".spec_bytes() && iv.len() >= 4 ==> ({
                &&& *final(srv) == *old(srv)
                &&& match spec_xread_plan(old(srv).db.entries@, iv, now) {
                    None => o.replies@.len() == 1 && resp_view(o.replies@[0])
                        == RespData::SimpleString(
                        "ERR wrong number of arguments for 'xread' command".spec_bytes(),
                    ),
                    Some(plan) => ({
                        let sections = crate::stream::xread_streams(
                            old(srv).db.entries@,
                            plan.1,
                            plan.2,
                            now,
                        );
                        match plan.0 {
                            None => o.replies@.len() == 1 && resp_view(o.replies@[0])
                                == RespData::Array(sections),
                            Some(t) => if sections.len() == 0 {
                                o.replies@.len() == 0 && (o.action matches Some(a) && (a
                                    matches Action::BlockXread { keys, ids, timeout_ms }
                                    && crate::bytesutil::views_of(keys@) == plan.1 && ids@
                                    == plan.2 && timeout_ms == t))
                            } else {
                                o.replies@.len() == 1 && resp_view(o.replies@[0])
                                    == RespData::Array(sections)
                            },
                        }
                    }),
                }
            }))
        }),
{
    proof {
        crate::resp::lemma_resp_seq_view(items@);
        lemma_stream_literal_bytes();
    }
    if bytes_eq_slice(cmd, "XADD".as_bytes()) && items.len() >= 5 {
        if (items.len() - 3) % 2 != 0 {
            return Some(
                reply_outcome(
                    RespValue::SimpleString(
                        crate::bytesutil::str_bytes(
                            "ERR wrong number of arguments for 'xadd' command",
                        ),
                    ),
                ),
            );
        }
        let key = arg_bytes(items, 1);
        let id_bytes_arg = arg_bytes(items, 2);
        match crate::stream::parse_xadd_id(&id_bytes_arg) {
            None => Some(
                reply_outcome(
                    RespValue::SimpleError(crate::bytesutil::str_bytes("ERR Invalid ID format")),
                ),
            ),
            Some(id) => {
                let ghost iv = resp_seq_view(items@);
                let mut fields: Vec<(Vec<u8>, Vec<u8>)> = Vec::new();
                let mut i: usize = 3;
                while i < items.len() - 1
                    invariant
                        3 <= i <= items@.len(),
                        items@.len() >= 5,
                        iv == resp_seq_view(items@),
                        iv.len() == items@.len(),
                        (items@.len() - 3) % 2 == 0,
                        i % 2 == 1,
                        fields@.len() == (i - 3) / 2,
                        forall|j: int|
                            0 <= j < fields@.len() ==> ((#[trigger] fields@[j]).0@ == spec_arg(
                                iv,
                                3 + 2 * j,
                            ) && fields@[j].1@ == spec_arg(iv, 4 + 2 * j)),
                    decreases items@.len() - i,
                {
                    fields.push((arg_bytes(items, i), arg_bytes(items, i + 1)));
                    i += 2;
                }
                proof {
                    crate::stream::lemma_fields_view(fields@);
                    assert(fields@.len() == (iv.len() - 3) / 2);
                    assert forall|j: int|
                        0 <= j < fields@.len() implies crate::stream::fields_view(fields@)[j]
                        == spec_xadd_fields(iv)[j] by {
                        assert(crate::stream::fields_view(fields@)[j] == (
                        fields@[j].0@,
                        fields@[j].1@,
                        ));
                    }
                    assert(crate::stream::fields_view(fields@) =~= spec_xadd_fields(iv));
                }
                let (reply, added) = srv.db.handle_xadd(&key, id, fields, wall_ms, now);
                if added {
                    Some(reply_action_outcome(reply, Action::NotifyStream))
                } else {
                    Some(reply_outcome(reply))
                }
            },
        }
    } else if bytes_eq_slice(cmd, "XRANGE".as_bytes()) && items.len() >= 4 {
        let key = arg_bytes(items, 1);
        let lo_arg = arg_bytes(items, 2);
        let hi_arg = arg_bytes(items, 3);
        let lo = match crate::stream::parse_range_id(&lo_arg, false) {
            Some(b) => b,
            None => (0, 0),
        };
        let hi = match crate::stream::parse_range_id(&hi_arg, true) {
            Some(b) => b,
            None => (u64::MAX, u64::MAX),
        };
        Some(reply_outcome(srv.db.handle_xrange(&key, lo, hi, now)))
    } else if bytes_eq_slice(cmd, "XREAD".as_bytes()) && items.len() >= 4 {
        Some(handle_xread(items, srv, now))
    } else {
        None
    }
}

/// Route one gated command to its operation.
///
/// The caller has upper-cased the command and applied the gates
/// (authentication, subscribed mode, queueing): every command reaching
/// this point runs.
#[verifier::rlimit(100)]
#[verifier::spinoff_prover]
pub fn dispatch_command(
    cmd: &Vec<u8>,
    items: &Vec<RespValue>,
    state: &mut ClientState,
    auth: &mut AuthState,
    srv: &mut ServerState,
    config: &ServerConfig,
    now: u64,
    wall_ms: u64,
) -> (r: Outcome)
    requires
        old(srv).wf(),
        items@.len() <= 0x7fff_ffff_ffff_ffff,
        cmd@ == spec_upper(spec_arg(resp_seq_view(items@), 0)),
    ensures
        final(srv).wf(),
        one_reply(r),
        !old(auth).authenticated && cmd@ != "AUTH".spec_bytes() ==> r.replies@.len() == 1
            && resp_view(r.replies@[0]) == RespData::SimpleError(noauth_msg()) && r.action is None
            && r.propagated@.len() == 0 && *final(srv) == *old(srv)
            && *final(state) == *old(state) && *final(auth) == *old(auth),
        r.propagated@.len() == 1 && cmd@ != "EXEC".spec_bytes() ==> final(srv).replicas.offsets@.len() == old(
            srv,
        ).replicas.offsets@.len() && (forall|i: int|
            0 <= i < old(srv).replicas.offsets@.len() ==> final(srv).replicas.offsets@[i]
                == crate::repl::sat_add_i64(
                #[trigger] old(srv).replicas.offsets@[i],
                r.propagated@[0]@.len() as int,
            )),
        old(auth).authenticated && cmd@ == "SET".spec_bytes() && items@.len() >= 3 ==> ({
            let iv = resp_seq_view(items@);
            &&& r.replies@.len() == 1
            &&& resp_view(r.replies@[0]) == RespData::SimpleString(crate::replies::ok_msg())
            &&& (crate::store::assoc_get(final(srv).db.entries@, spec_arg(iv, 1)) matches Some(e)
                && (e.value matches crate::store::ValueType::Str(v) && v@ == spec_arg(iv, 2))
                && e.expiry == (match spec_set_px(iv) {
                None => None,
                Some(ms) => Some(crate::store::spec_deadline(now, ms)),
            }))
        }),
        old(auth).authenticated && cmd@ == "GET".spec_bytes() && items@.len() == 2 ==> ({
            let iv = resp_seq_view(items@);
            &&& r.replies@.len() == 1
            &&& match crate::store::live_get(old(srv).db.entries@, spec_arg(iv, 1), now) {
                None => resp_view(r.replies@[0]) == RespData::NullBulkString,
                Some(e) => match e.value {
                    crate::store::ValueType::Str(s) => resp_view(r.replies@[0])
                        == RespData::BulkString(s@),
                    _ => resp_view(r.replies@[0]) == RespData::SimpleError(
                        crate::replies::wrongtype_msg(),
                    ),
                },
            }
        }),
        // propagation: masters only, at most one frame outside EXEC, and
        // only the replicated commands send one (the frame bytes are
        // pinned by `ServerState::propagate_frame`)
        r.propagated@.len() >= 1 ==> config.replicaof is None,
        r.propagated@.len() == 1 && cmd@ != "EXEC".spec_bytes() ==> r.propagated@[0]@
            == crate::resp::spec_encode(RespData::Array(resp_seq_view(items@))),
        !spec_replicated_cmd(cmd@) ==> r.propagated@.len() == 0,
        // a command the dispatcher does not recognize answers the
        // unknown-command line and touches nothing
        old(auth).authenticated && !spec_known_cmd(cmd@) ==> r.replies@.len() == 1 && resp_view(
            r.replies@[0],
        ) == RespData::SimpleString(crate::replies::unknown_msg()) && *final(srv) == *old(srv)
            && *final(state) == *old(state),
        // PING answers +PONG (or the payload), and the pong pair in
        // subscribed mode
        old(auth).authenticated && cmd@ == "PING".spec_bytes() ==> ({
            let iv = resp_seq_view(items@);
            &&& r.replies@.len() == 1
            &&& *final(srv) == *old(srv)
            &&& if old(state).subscribed_channels@.len() > 0 {
                resp_view(r.replies@[0]) == RespData::Array(
                    seq![
                        RespData::BulkString("pong".spec_bytes()),
                        RespData::BulkString(Seq::empty()),
                    ],
                )
            } else {
                resp_view(r.replies@[0]) == RespData::SimpleString(
                    if iv.len() > 1 {
                        spec_arg(iv, 1)
                    } else {
                        crate::replies::pong_msg()
                    },
                )
            }
        }),
        // ECHO answers its payload
        old(auth).authenticated && cmd@ == "ECHO".spec_bytes() && items@.len() == 2
            && old(state).subscribed_channels@.len() == 0 ==> r.replies@.len() == 1
            && resp_view(r.replies@[0]) == RespData::BulkString(spec_arg(resp_seq_view(items@), 1))
            && *final(srv) == *old(srv),
        // MULTI opens a transaction
        old(auth).authenticated && cmd@ == "MULTI".spec_bytes() ==> r.replies@.len() == 1
            && resp_view(r.replies@[0]) == RespData::SimpleString(crate::replies::ok_msg())
            && final(state).in_transaction == true
            && final(state).queued_commands@ == old(state).queued_commands@
            && *final(srv) == *old(srv),
        // DISCARD closes and empties it, or names the missing MULTI
        old(auth).authenticated && cmd@ == "DISCARD".spec_bytes() ==> r.replies@.len() == 1
            && *final(srv) == *old(srv) && (if old(state).in_transaction {
            resp_view(r.replies@[0]) == RespData::SimpleString(crate::replies::ok_msg())
                && final(state).in_transaction == false
                && final(state).queued_commands@.len() == 0
        } else {
            resp_view(r.replies@[0]) == RespData::SimpleError(
                crate::replies::discard_no_multi_msg(),
            ) && *final(state) == *old(state)
        }),
        // SUBSCRIBE records the channel once and answers the triple with
        // the per-connection count
        old(auth).authenticated && cmd@ == "SUBSCRIBE".spec_bytes() && items@.len() >= 2 ==> ({
            let ch = spec_arg(resp_seq_view(items@), 1);
            let subs0 = old(state).subscribed_channels@;
            let subs1 = final(state).subscribed_channels@;
            let had = exists|i: int| 0 <= i < subs0.len() && (#[trigger] subs0[i])@ == ch;
            &&& r.replies@.len() == 1
            &&& resp_view(r.replies@[0]) == RespData::Array(
                seq![
                    RespData::BulkString("subscribe".spec_bytes()),
                    RespData::BulkString(ch),
                    RespData::Integer(subs1.len() as i64 as int),
                ],
            )
            &&& (had ==> subs1 == subs0 && final(srv).channels == old(srv).channels)
            &&& (!had ==> subs1.len() == subs0.len() + 1 && subs1.subrange(0, subs0.len() as int)
                == subs0 && subs1.last()@ == ch && (match crate::pubsub::chan_get(
                old(srv).channels.channels@,
                ch,
            ) {
                Some(l0) => crate::pubsub::chan_get(final(srv).channels.channels@, ch) == Some(
                    if l0.contains(old(state).client_id) {
                        l0
                    } else {
                        l0.push(old(state).client_id)
                    },
                ),
                None => crate::pubsub::chan_get(final(srv).channels.channels@, ch) == Some(
                    Seq::empty().push(old(state).client_id),
                ),
            }))
        }),
        // UNSUBSCRIBE forgets the channel on both sides and answers the
        // triple
        old(auth).authenticated && cmd@ == "UNSUBSCRIBE".spec_bytes() && items@.len() >= 2 ==> ({
            let ch = spec_arg(resp_seq_view(items@), 1);
            let subs1 = final(state).subscribed_channels@;
            &&& r.replies@.len() == 1
            &&& resp_view(r.replies@[0]) == RespData::Array(
                seq![
                    RespData::BulkString("unsubscribe".spec_bytes()),
                    RespData::BulkString(ch),
                    RespData::Integer(subs1.len() as i64 as int),
                ],
            )
            &&& (forall|i: int| 0 <= i < subs1.len() ==> (#[trigger] subs1[i])@ != ch)
        }),
        // every command but AUTH leaves the authentication state alone
        cmd@ != "AUTH".spec_bytes() ==> *final(auth) == *old(auth),
        // DEL and INCR run exactly as a transaction child would
        old(auth).authenticated && cmd@ == "DEL".spec_bytes() && items@.len() >= 2 ==> ({
            let iv = resp_seq_view(items@);
            &&& r.replies@.len() == 1
            &&& exec_step_rel(
                old(srv).db.entries@,
                iv,
                resp_view(r.replies@[0]),
                final(srv).db.entries@,
                now,
            )
            &&& (config.replicaof is None ==> r.propagated@.len() == 1)
        }),
        old(auth).authenticated && cmd@ == "INCR".spec_bytes() && items@.len() == 2 ==> ({
            let iv = resp_seq_view(items@);
            &&& r.replies@.len() == 1
            &&& exec_step_rel(
                old(srv).db.entries@,
                iv,
                resp_view(r.replies@[0]),
                final(srv).db.entries@,
                now,
            )
            &&& (config.replicaof is None && !(resp_view(r.replies@[0]) is SimpleError)
                ==> r.propagated@.len() == 1)
        }),
        // TYPE names the live value's kind
        old(auth).authenticated && cmd@ == "TYPE".spec_bytes() && items@.len() == 2 ==> ({
            let iv = resp_seq_view(items@);
            &&& r.replies@.len() == 1
            &&& match crate::store::live_get(old(srv).db.entries@, spec_arg(iv, 1), now) {
                None => resp_view(r.replies@[0]) == RespData::SimpleString("none".spec_bytes()),
                Some(e) => final(srv).db == old(srv).db && resp_view(r.replies@[0])
                    == RespData::SimpleString(crate::store::kind_name(e.value)),
            }
        }),
        // CONFIG GET answers the two stored settings
        old(auth).authenticated && cmd@ == "CONFIG".spec_bytes() ==> ({
            let iv = resp_seq_view(items@);
            let sub = spec_upper(spec_arg(iv, 1));
            &&& r.replies@.len() == 1
            &&& *final(srv) == *old(srv)
            &&& if sub == "GET".spec_bytes() {
                if iv.len() == 3 && spec_upper(spec_arg(iv, 2)) == "DIR".spec_bytes() {
                    resp_view(r.replies@[0]) == RespData::Array(
                        seq![
                            RespData::BulkString("dir".spec_bytes()),
                            RespData::BulkString(config.dir@),
                        ],
                    )
                } else if iv.len() == 3 && spec_upper(spec_arg(iv, 2))
                    == "DBFILENAME".spec_bytes() {
                    resp_view(r.replies@[0]) == RespData::Array(
                        seq![
                            RespData::BulkString("dbfilename".spec_bytes()),
                            RespData::BulkString(config.dbfilename@),
                        ],
                    )
                } else {
                    resp_view(r.replies@[0]) == RespData::NullBulkString
                }
            } else {
                resp_view(r.replies@[0]) == RespData::SimpleString(crate::replies::ok_msg())
            }
        }),
        // KEYS lists the live keys matching the pattern
        old(auth).authenticated && cmd@ == "KEYS".spec_bytes() && items@.len() == 2 ==> ({
            let iv = resp_seq_view(items@);
            &&& r.replies@.len() == 1
            &&& *final(srv) == *old(srv)
            &&& resp_view(r.replies@[0]) == RespData::Array(
                crate::store::matching_live_keys(
                    old(srv).db.entries@,
                    spec_arg(iv, 1),
                    now,
                ).map_values(|k: Seq<u8>| RespData::BulkString(k)),
            )
        }),
        // INFO reports the role and replication id
        old(auth).authenticated && cmd@ == "INFO".spec_bytes() && items@.len() == 2 ==> ({
            &&& r.replies@.len() == 1
            &&& *final(srv) == *old(srv)
            &&& resp_view(r.replies@[0]) == RespData::BulkString(
                "role:".spec_bytes() + (if config.replicaof is Some {
                    "slave".spec_bytes()
                } else {
                    "master".spec_bytes()
                }) + "\nmaster_replid:".spec_bytes() + config.replication_id@
                    + "\nmaster_repl_offset:0".spec_bytes(),
            )
        }),
        old(auth).authenticated && cmd@ == "REPLCONF".spec_bytes() ==> r.replies@.len() == 1
            && resp_view(r.replies@[0]) == RespData::SimpleString(crate::replies::ok_msg())
            && *final(srv) == *old(srv),
        // WAIT answers at once when every replica is caught up, and
        // otherwise hands the caller the acknowledgement poll
        old(auth).authenticated && cmd@ == "WAIT".spec_bytes() && items@.len() == 3 ==> ({
            let iv = resp_seq_view(items@);
            let offs = old(srv).replicas.offsets@;
            &&& *final(srv) == *old(srv)
            &&& if offs.len() == 0 {
                r.replies@.len() == 1 && resp_view(r.replies@[0]) == RespData::Integer(0)
            } else if forall|i: int| 0 <= i < offs.len() ==> #[trigger] offs[i] <= 0 {
                r.replies@.len() == 1 && resp_view(r.replies@[0]) == RespData::Integer(
                    offs.len() as i64 as int,
                )
            } else {
                r.replies@.len() == 0 && (r.action matches Some(a) && (a
                    matches Action::Getacks { expected, timeout_ms } && expected@ == offs
                    && timeout_ms == spec_wait_timeout(iv)))
            }
        }),
        // ZADD stores the parsed score under the member
        old(auth).authenticated && cmd@ == "ZADD".spec_bytes() && items@.len() >= 4 ==> ({
            let iv = resp_seq_view(items@);
            let key = spec_arg(iv, 1);
            let cur = crate::store::live_get(old(srv).db.entries@, key, now);
            let bad = cur matches Some(e) && !(e.value is SortedSet);
            let z0: Seq<crate::zset::ZsetEntry> = match cur {
                Some(e) => match e.value {
                    crate::store::ValueType::SortedSet(z) => z@,
                    _ => Seq::empty(),
                },
                None => Seq::empty(),
            };
            let member = spec_arg(iv, 3);
            &&& r.replies@.len() == 1
            &&& if bad {
                resp_view(r.replies@[0]) == RespData::SimpleError(
                    crate::replies::wrongtype_msg(),
                ) && r.propagated@.len() == 0
            } else {
                let existed = crate::zset::zset_lookup(z0, member) is Some;
                &&& resp_view(r.replies@[0]) == RespData::Integer(
                    if existed {
                        0
                    } else {
                        1
                    },
                )
                &&& (crate::store::assoc_get(final(srv).db.entries@, key) matches Some(e2)
                    && e2.expiry is None && (e2.value
                    matches crate::store::ValueType::SortedSet(z1) && crate::zset::zset_lookup(
                    z1@,
                    member,
                ) == Some(spec_zadd_score(spec_arg(iv, 2))) && (forall|m: Seq<u8>|
                    m != member ==> #[trigger] crate::zset::zset_lookup(z1@, m)
                        == crate::zset::zset_lookup(z0, m))))
                &&& (config.replicaof is None ==> r.propagated@.len() == 1)
            }
        }),
        // ZRANK answers the member's rank in score order
        old(auth).authenticated && cmd@ == "ZRANK".spec_bytes() && items@.len() >= 3 ==> ({
            let iv = resp_seq_view(items@);
            &&& r.replies@.len() == 1
            &&& match crate::store::live_get(old(srv).db.entries@, spec_arg(iv, 1), now) {
                None => resp_view(r.replies@[0]) == RespData::NullBulkString,
                Some(e) => match e.value {
                    crate::store::ValueType::SortedSet(z) => {
                        if crate::zset::zset_lookup(z@, spec_arg(iv, 2)) is Some {
                            exists|i: int|
                                0 <= i < z@.len() && (#[trigger] z@[i]).member@ == spec_arg(
                                    iv,
                                    2,
                                ) && resp_view(r.replies@[0]) == RespData::Integer(
                                    i as i64 as int,
                                )
                        } else {
                            resp_view(r.replies@[0]) == RespData::NullBulkString
                        }
                    },
                    _ => resp_view(r.replies@[0]) == RespData::SimpleError(
                        crate::replies::wrongtype_msg(),
                    ),
                },
            }
        }),
        // ZRANGE answers the members of the index window
        old(auth).authenticated && cmd@ == "ZRANGE".spec_bytes() && items@.len() >= 4 ==> ({
            let iv = resp_seq_view(items@);
            let start: int = if crate::bytesutil::valid_i64_bytes(spec_arg(iv, 2)) {
                crate::bytesutil::i64_val(spec_arg(iv, 2))
            } else {
                0
            };
            let stop: int = if crate::bytesutil::valid_i64_bytes(spec_arg(iv, 3)) {
                crate::bytesutil::i64_val(spec_arg(iv, 3))
            } else {
                -1
            };
            &&& r.replies@.len() == 1
            &&& match crate::store::live_get(old(srv).db.entries@, spec_arg(iv, 1), now) {
                None => resp_view(r.replies@[0]) == RespData::Array(Seq::empty()),
                Some(e) => match e.value {
                    crate::store::ValueType::SortedSet(z) => ({
                        let w = crate::zset::zrange_window(z@.len() as int, start, stop);
                        if 0 <= w.0 <= w.1 < z@.len() {
                            resp_view(r.replies@[0]) == crate::list::bulk_array(
                                crate::zset::zmembers(z@).subrange(w.0, w.1 + 1),
                            )
                        } else {
                            resp_view(r.replies@[0]) == RespData::Array(Seq::empty())
                        }
                    }),
                    _ => resp_view(r.replies@[0]) == RespData::SimpleError(
                        crate::replies::wrongtype_msg(),
                    ),
                },
            }
        }),
        old(auth).authenticated && cmd@ == "ZCARD".spec_bytes() && items@.len() == 2 ==> ({
            let iv = resp_seq_view(items@);
            &&& r.replies@.len() == 1
            &&& match crate::store::live_get(old(srv).db.entries@, spec_arg(iv, 1), now) {
                None => resp_view(r.replies@[0]) == RespData::Integer(0),
                Some(e) => match e.value {
                    crate::store::ValueType::SortedSet(z) => resp_view(r.replies@[0])
                        == RespData::Integer(z@.len() as i64 as int),
                    _ => resp_view(r.replies@[0]) == RespData::SimpleError(
                        crate::replies::wrongtype_msg(),
                    ),
                },
            }
        }),
        old(auth).authenticated && cmd@ == "ZSCORE".spec_bytes() && items@.len() == 3 ==> ({
            let iv = resp_seq_view(items@);
            &&& r.replies@.len() == 1
            &&& match crate::store::live_get(old(srv).db.entries@, spec_arg(iv, 1), now) {
                None => resp_view(r.replies@[0]) == RespData::NullBulkString,
                Some(e) => match e.value {
                    crate::store::ValueType::SortedSet(z) => match crate::zset::zset_lookup(
                        z@,
                        spec_arg(iv, 2),
                    ) {
                        Some(sv) => resp_view(r.replies@[0]) == RespData::BulkString(
                            crate::zset::score_view_bytes(sv),
                        ),
                        None => resp_view(r.replies@[0]) == RespData::NullBulkString,
                    },
                    _ => resp_view(r.replies@[0]) == RespData::SimpleError(
                        crate::replies::wrongtype_msg(),
                    ),
                },
            }
        }),
        // ZREM removes the member and reports whether it was there
        old(auth).authenticated && cmd@ == "ZREM".spec_bytes() && items@.len() >= 3 ==> ({
            let iv = resp_seq_view(items@);
            let key = spec_arg(iv, 1);
            let cur = crate::store::live_get(old(srv).db.entries@, key, now);
            let bad = cur matches Some(e) && !(e.value is SortedSet);
            &&& r.replies@.len() == 1
            &&& match cur {
                None => resp_view(r.replies@[0]) == RespData::Integer(0)
                    && r.propagated@.len() == (if config.replicaof is None {
                    1int
                } else {
                    0int
                }),
                Some(e) => {
                    if bad {
                        resp_view(r.replies@[0]) == RespData::SimpleError(
                            crate::replies::wrongtype_msg(),
                        ) && r.propagated@.len() == 0
                    } else {
                        let z0 = e.value->SortedSet_0@;
                        let member = spec_arg(iv, 2);
                        let existed = crate::zset::zset_lookup(z0, member) is Some;
                        &&& resp_view(r.replies@[0]) == RespData::Integer(
                            if existed {
                                1
                            } else {
                                0
                            },
                        )
                        &&& (crate::store::assoc_get(final(srv).db.entries@, key)
                            matches Some(e2) && e2.expiry == e.expiry && (e2.value
                            matches crate::store::ValueType::SortedSet(z1)
                            && crate::zset::zset_lookup(z1@, member) is None && (forall|
                            m: Seq<u8>,
                        |
                            m != member ==> #[trigger] crate::zset::zset_lookup(z1@, m)
                                == crate::zset::zset_lookup(z0, m))))
                        &&& (config.replicaof is None ==> r.propagated@.len() == 1)
                    }
                },
            }
        }),
        // RPUSH and LPUSH append, wake the first waiter, and report the
        // new length
        old(auth).authenticated && (cmd@ == "RPUSH".spec_bytes() || cmd@
            == "LPUSH".spec_bytes()) && items@.len() >= 3 ==> ({
            let iv = resp_seq_view(items@);
            let key = spec_arg(iv, 1);
            let vals = Seq::new((iv.len() - 2) as nat, |j: int| spec_arg(iv, 2 + j));
            let front = cmd@ == "LPUSH".spec_bytes();
            let cur = crate::store::live_get(old(srv).db.entries@, key, now);
            let old_list: Seq<Seq<u8>> = match cur {
                Some(e) => match e.value {
                    crate::store::ValueType::List(l) => crate::bytesutil::views_of(l@),
                    _ => Seq::empty(),
                },
                None => Seq::empty(),
            };
            let bad = cur matches Some(e) && !(e.value is List);
            &&& r.replies@.len() == 1
            &&& if bad {
                resp_view(r.replies@[0]) == RespData::SimpleError(
                    crate::replies::wrongtype_msg(),
                ) && r.propagated@.len() == 0
            } else {
                let pushed = crate::list::pushed_list(old_list, vals, front);
                &&& resp_view(r.replies@[0]) == RespData::Integer(pushed.len() as i64 as int)
                &&& (config.replicaof is None ==> r.propagated@.len() == 1)
                &&& match crate::list::spec_first_waiter(old(srv).blocked.waiters@, key) {
                    None => {
                        &&& final(srv).blocked.waiters@ == old(srv).blocked.waiters@
                        &&& (crate::store::assoc_get(final(srv).db.entries@, key)
                            matches Some(e2) && e2.expiry is None && (e2.value
                            matches crate::store::ValueType::List(nl)
                            && crate::bytesutil::views_of(nl@) == pushed))
                    },
                    Some(i) => {
                        &&& final(srv).blocked.waiters@ == old(srv).blocked.waiters@.remove(
                            i as int,
                        )
                        &&& (r.action matches Some(a) && (a matches Action::WakeBlpop {
                            client,
                            key: wk,
                            value,
                        } && client == old(srv).blocked.waiters@[i as int].client && wk@ == key
                            && value@ == pushed[0]))
                        &&& (crate::store::assoc_get(final(srv).db.entries@, key)
                            matches Some(e2) && e2.expiry is None && (e2.value
                            matches crate::store::ValueType::List(nl)
                            && crate::bytesutil::views_of(nl@) == pushed.subrange(
                            1,
                            pushed.len() as int,
                        )))
                    },
                }
            }
        }),
        // LRANGE answers the window of the list
        old(auth).authenticated && cmd@ == "LRANGE".spec_bytes() && items@.len() == 4 ==> ({
            let iv = resp_seq_view(items@);
            let start: int = if crate::bytesutil::valid_i64_bytes(spec_arg(iv, 2)) {
                crate::bytesutil::i64_val(spec_arg(iv, 2))
            } else {
                0
            };
            let stop: int = if crate::bytesutil::valid_i64_bytes(spec_arg(iv, 3)) {
                crate::bytesutil::i64_val(spec_arg(iv, 3))
            } else {
                0
            };
            &&& r.replies@.len() == 1
            &&& match crate::store::live_get(old(srv).db.entries@, spec_arg(iv, 1), now) {
                None => resp_view(r.replies@[0]) == RespData::Array(Seq::empty()),
                Some(e) => match e.value {
                    crate::store::ValueType::List(l) => ({
                        let w = crate::list::lrange_window(l@.len() as int, start, stop);
                        if w.0 < w.1 {
                            resp_view(r.replies@[0]) == crate::list::bulk_array(
                                crate::bytesutil::views_of(l@).subrange(w.0, w.1),
                            )
                        } else {
                            resp_view(r.replies@[0]) == RespData::Array(Seq::empty())
                        }
                    }),
                    _ => resp_view(r.replies@[0]) == RespData::SimpleError(
                        crate::replies::wrongtype_msg(),
                    ),
                },
            }
        }),
        old(auth).authenticated && cmd@ == "LLEN".spec_bytes() && items@.len() == 2 ==> ({
            let iv = resp_seq_view(items@);
            &&& r.replies@.len() == 1
            &&& match crate::store::live_get(old(srv).db.entries@, spec_arg(iv, 1), now) {
                None => resp_view(r.replies@[0]) == RespData::Integer(0),
                Some(e) => match e.value {
                    crate::store::ValueType::List(l) => resp_view(r.replies@[0])
                        == RespData::Integer(l@.len() as i64 as int),
                    _ => resp_view(r.replies@[0]) == RespData::SimpleError(
                        crate::replies::wrongtype_msg(),
                    ),
                },
            }
        }),
        // LPOP removes from the front under the count rules
        old(auth).authenticated && cmd@ == "LPOP".spec_bytes() && items@.len() >= 2 ==> ({
            let iv = resp_seq_view(items@);
            let key = spec_arg(iv, 1);
            let req = spec_lpop_count(iv);
            let counted = iv.len() > 2;
            &&& r.replies@.len() == 1
            &&& (config.replicaof is None && !(resp_view(r.replies@[0]) is SimpleError)
                ==> r.propagated@.len() == 1)
            &&& if req < 0 {
                resp_view(r.replies@[0]) == RespData::SimpleError(
                    crate::replies::out_of_range_msg(),
                )
            } else {
                match crate::store::live_get(old(srv).db.entries@, key, now) {
                    None => resp_view(r.replies@[0]) == RespData::NullBulkString,
                    Some(e) => match e.value {
                        crate::store::ValueType::List(l) => ({
                            let lv = crate::bytesutil::views_of(l@);
                            let n = if req < lv.len() {
                                req
                            } else {
                                lv.len() as int
                            };
                            &&& (crate::store::assoc_get(final(srv).db.entries@, key)
                                matches Some(e2) && e2.expiry == e.expiry && (e2.value
                                matches crate::store::ValueType::List(nl)
                                && crate::bytesutil::views_of(nl@) == lv.subrange(
                                n,
                                lv.len() as int,
                            )))
                            &&& if req == 0 {
                                resp_view(r.replies@[0]) == RespData::Array(Seq::empty())
                            } else if n == 0 {
                                resp_view(r.replies@[0]) == RespData::NullBulkString
                            } else if !counted {
                                resp_view(r.replies@[0]) == RespData::BulkString(lv[0])
                            } else {
                                resp_view(r.replies@[0]) == crate::list::bulk_array(
                                    lv.subrange(0, n),
                                )
                            }
                        }),
                        _ => resp_view(r.replies@[0]) == RespData::SimpleError(
                            crate::replies::wrongtype_msg(),
                        ),
                    },
                }
            }
        }),
        // BLPOP pops at once or registers the caller as a waiter
        old(auth).authenticated && cmd@ == "BLPOP".spec_bytes() && items@.len() >= 3 ==> ({
            let iv = resp_seq_view(items@);
            let key = spec_arg(iv, 1);
            let tms: u64 = if crate::score::valid_score_bytes(spec_arg(iv, 2)) {
                spec_timeout_ms(crate::score::spec_score_parts(spec_arg(iv, 2)))
            } else {
                0
            };
            let cur = crate::store::live_get(old(srv).db.entries@, key, now);
            let has = cur matches Some(e) && (e.value matches crate::store::ValueType::List(l)
                && crate::bytesutil::views_of(l@).len() > 0);
            let bad = cur matches Some(e) && !(e.value is List);
            &&& r.propagated@.len() == 0
            &&& if bad {
                &&& r.replies@.len() == 1
                &&& resp_view(r.replies@[0]) == RespData::SimpleError(
                    crate::replies::wrongtype_msg(),
                )
                &&& final(srv).blocked.waiters@ == old(srv).blocked.waiters@
            } else if has {
                let e = cur->Some_0;
                let lv = crate::bytesutil::views_of(e.value->List_0@);
                &&& r.replies@.len() == 1
                &&& resp_view(r.replies@[0]) == RespData::Array(
                    seq![RespData::BulkString(key), RespData::BulkString(lv[0])],
                )
                &&& final(srv).blocked.waiters@ == old(srv).blocked.waiters@
                &&& (crate::store::assoc_get(final(srv).db.entries@, key) matches Some(e2)
                    && e2.expiry == e.expiry && (e2.value
                    matches crate::store::ValueType::List(nl) && crate::bytesutil::views_of(nl@)
                    == lv.subrange(1, lv.len() as int)))
            } else {
                let w = final(srv).blocked.waiters@;
                let w0 = old(srv).blocked.waiters@;
                &&& r.replies@.len() == 0
                &&& (r.action matches Some(a) && (a matches Action::Block { key: bk, timeout_ms }
                    && bk@ == key && timeout_ms == tms))
                &&& w.len() == w0.len() + 1
                &&& w.subrange(0, w0.len() as int) == w0
                &&& w.last().list_key@ == key
                &&& w.last().client == old(state).client_id
            }
        }),
        // PUBLISH counts the subscribers and hands their ids out
        old(auth).authenticated && cmd@ == "PUBLISH".spec_bytes() && items@.len() >= 3 ==> ({
            let iv = resp_seq_view(items@);
            let l = match crate::pubsub::chan_get(old(srv).channels.channels@, spec_arg(iv, 1)) {
                Some(l) => l,
                None => Seq::empty(),
            };
            &&& *final(srv) == *old(srv)
            &&& r.replies@.len() == 1
            &&& resp_view(r.replies@[0]) == RespData::Integer(l.len() as i64 as int)
            &&& (r.action matches Some(a) && (a matches Action::PublishTo {
                clients,
                channel,
                message,
            } && clients@ == l && channel@ == spec_arg(iv, 1) && message@ == spec_arg(iv, 2)))
        }),
        // XADD appends under the id rules and notifies stream waiters
        old(auth).authenticated && cmd@ == "XADD".spec_bytes() && items@.len() >= 5 ==> ({
            let iv = resp_seq_view(items@);
            let key = spec_arg(iv, 1);
            &&& r.propagated@.len() == 0
            &&& if (iv.len() - 3) % 2 != 0 {
                &&& *final(srv) == *old(srv)
                &&& r.replies@.len() == 1
                &&& resp_view(r.replies@[0]) == RespData::SimpleString(
                    "ERR wrong number of arguments for 'xadd' command".spec_bytes(),
                )
            } else {
                match crate::stream::spec_parse_xadd_id(spec_arg(iv, 2)) {
                    None => {
                        &&& *final(srv) == *old(srv)
                        &&& r.replies@.len() == 1
                        &&& resp_view(r.replies@[0]) == RespData::SimpleError(
                            "ERR Invalid ID format".spec_bytes(),
                        )
                    },
                    Some(id) => ({
                        let cur = crate::store::live_get(old(srv).db.entries@, key, now);
                        let bad = cur matches Some(e) && !(e.value is Stream);
                        let s0: Seq<crate::stream::StreamEntry> = match cur {
                            Some(e) => match e.value {
                                crate::store::ValueType::Stream(s) => s.entries@,
                                _ => Seq::empty(),
                            },
                            None => Seq::empty(),
                        };
                        &&& r.replies@.len() == 1
                        &&& if bad {
                            resp_view(r.replies@[0]) == RespData::SimpleError(
                                crate::replies::wrongtype_msg(),
                            )
                        } else {
                            let top = if s0.len() == 0 {
                                None
                            } else {
                                Some((s0.last().ms, s0.last().seq))
                            };
                            let g = crate::stream::generated_id(id, wall_ms, top);
                            if g.0 == 0 && g.1 == 0 {
                                resp_view(r.replies@[0]) == RespData::SimpleError(
                                    crate::replies::xadd_zero_msg(),
                                )
                            } else if top matches Some(tp) && !crate::stream::id_lt(
                                tp.0,
                                tp.1,
                                g.0,
                                g.1,
                            ) {
                                resp_view(r.replies@[0]) == RespData::SimpleError(
                                    crate::replies::xadd_small_msg(),
                                )
                            } else {
                                &&& resp_view(r.replies@[0]) == RespData::BulkString(
                                    crate::stream::id_bytes(g.0, g.1),
                                )
                                &&& (r.action matches Some(a) && a is NotifyStream)
                                &&& (crate::store::assoc_get(final(srv).db.entries@, key)
                                    matches Some(e2) && e2.expiry is None && (e2.value
                                    matches crate::store::ValueType::Stream(s1)
                                    && s1.entries@.len() == s0.len() + 1
                                    && s1.entries@.last().ms == g.0 && s1.entries@.last().seq
                                    == g.1 && crate::stream::fields_view(
                                    s1.entries@.last().fields@,
                                ) == spec_xadd_fields(iv)))
                            }
                        }
                    }),
                }
            }
        }),
        // XRANGE answers the entries of the id window
        old(auth).authenticated && cmd@ == "XRANGE".spec_bytes() && items@.len() >= 4 ==> ({
            let iv = resp_seq_view(items@);
            let lo = match crate::stream::spec_range_bound(spec_arg(iv, 2), false) {
                Some(b) => b,
                None => (0u64, 0u64),
            };
            let hi = match crate::stream::spec_range_bound(spec_arg(iv, 3), true) {
                Some(b) => b,
                None => (u64::MAX, u64::MAX),
            };
            &&& r.replies@.len() == 1
            &&& match crate::store::live_get(old(srv).db.entries@, spec_arg(iv, 1), now) {
                None => resp_view(r.replies@[0]) == RespData::Array(Seq::empty()),
                Some(e) => match e.value {
                    crate::store::ValueType::Stream(s) => resp_view(r.replies@[0])
                        == RespData::Array(
                        crate::stream::entries_reply(
                            crate::stream::range_filter(s.entries@, lo, hi),
                        ),
                    ),
                    _ => resp_view(r.replies@[0]) == RespData::SimpleError(
                        crate::replies::wrongtype_msg(),
                    ),
                },
            }
        }),
        // XREAD follows the read plan, blocking when it says so
        old(auth).authenticated && cmd@ == "XREAD".spec_bytes() && items@.len() >= 4 ==> ({
            let iv = resp_seq_view(items@);
            &&& *final(srv) == *old(srv)
            &&& match spec_xread_plan(old(srv).db.entries@, iv, now) {
                None => r.replies@.len() == 1 && resp_view(r.replies@[0])
                    == RespData::SimpleString(
                    "ERR wrong number of arguments for 'xread' command".spec_bytes(),
                ),
                Some(plan) => ({
                    let sections = crate::stream::xread_streams(
                        old(srv).db.entries@,
                        plan.1,
                        plan.2,
                        now,
                    );
                    match plan.0 {
                        None => r.replies@.len() == 1 && resp_view(r.replies@[0])
                            == RespData::Array(sections),
                        Some(tb) => if sections.len() == 0 {
                            r.replies@.len() == 0 && (r.action matches Some(a) && (a
                                matches Action::BlockXread { keys, ids, timeout_ms }
                                && crate::bytesutil::views_of(keys@) == plan.1 && ids@ == plan.2
                                && timeout_ms == tb))
                        } else {
                            r.replies@.len() == 1 && resp_view(r.replies@[0])
                                == RespData::Array(sections)
                        },
                    }
                }),
            }
        }),
        // GEOADD validates the pair and hands only a valid one out; the
        // frame reaches the replicas only after the addition is applied
        old(auth).authenticated && cmd@ == "GEOADD".spec_bytes() && items@.len() >= 5 ==> ({
            let iv = resp_seq_view(items@);
            let a2 = spec_arg(iv, 2);
            let a3 = spec_arg(iv, 3);
            &&& r.propagated@.len() == 0
            &&& *final(srv) == *old(srv)
            &&& if !crate::score::valid_score_bytes(a2) || !crate::score::valid_score_bytes(a3) {
                r.replies@.len() == 1 && resp_view(r.replies@[0]) == RespData::SimpleError(
                    "ERR invalid longitude,latitude pair".spec_bytes(),
                ) && r.action is None
            } else {
                let pl = crate::score::spec_score_parts(a2);
                let pt = crate::score::spec_score_parts(a3);
                if spec_lon_ok(pl) && spec_lat_ok(pt) {
                    r.replies@.len() == 0 && (r.action matches Some(a) && (a
                        matches Action::GeoAdd { key, member, lon, lat, frame } && key@
                        == spec_arg(iv, 1) && member@ == spec_arg(iv, 4) && lon@ == a2 && lat@
                        == a3 && (config.replicaof is None ==> (frame matches Some(f) && f@
                        == crate::resp::spec_encode(RespData::Array(iv)))) && (config.replicaof
                        is Some ==> frame is None)))
                } else {
                    r.replies@.len() == 1 && resp_view(r.replies@[0]) == RespData::SimpleError(
                        crate::geo::bad_coords_msg(
                            (pl.0, pl.1 as u64, pl.2),
                            (pt.0, pt.1 as u64, pt.2),
                        ),
                    ) && r.action is None
                }
            }
        }),
        // GEOPOS, GEODIST and GEOSEARCH hand the caller the pinned
        // arguments to compute on
        old(auth).authenticated && cmd@ == "GEOPOS".spec_bytes() && items@.len() >= 3 ==> ({
            let iv = resp_seq_view(items@);
            &&& *final(srv) == *old(srv)
            &&& r.propagated@.len() == 0
            &&& r.replies@.len() == 0
            &&& (r.action matches Some(a) && (a matches Action::GeoPos { key, members } && key@
                == spec_arg(iv, 1) && crate::bytesutil::views_of(members@) == Seq::new(
                (iv.len() - 2) as nat,
                |j: int| spec_arg(iv, 2 + j),
            )))
        }),
        old(auth).authenticated && cmd@ == "GEODIST".spec_bytes() && items@.len() >= 3 ==> ({
            let iv = resp_seq_view(items@);
            &&& *final(srv) == *old(srv)
            &&& r.propagated@.len() == 0
            &&& r.replies@.len() == 0
            &&& (r.action matches Some(a) && (a matches Action::GeoDist { key, m1, m2 } && key@
                == spec_arg(iv, 1) && m1@ == spec_arg(iv, 2) && m2@ == spec_arg(iv, 3)))
        }),
        old(auth).authenticated && cmd@ == "GEOSEARCH".spec_bytes() && items@.len() >= 7 ==> ({
            let iv = resp_seq_view(items@);
            &&& *final(srv) == *old(srv)
            &&& r.propagated@.len() == 0
            &&& r.replies@.len() == 0
            &&& (r.action matches Some(a) && (a matches Action::GeoSearch {
                key,
                lon,
                lat,
                radius,
            } && key@ == spec_arg(iv, 1) && lon@ == spec_arg(iv, 3) && lat@ == spec_arg(iv, 4)
                && radius@ == spec_arg(iv, 6)))
        }),
        // EXEC runs the queue as handle_exec says, sending on exactly
        // the successful mutating children in queue order
        old(auth).authenticated && cmd@ == "EXEC".spec_bytes() ==> ({
            &&& (!old(state).in_transaction ==> r.replies@.len() == 1 && resp_view(
                r.replies@[0],
            ) == RespData::SimpleError(crate::replies::exec_no_multi_msg()) && *final(state)
                == *old(state) && *final(srv) == *old(srv) && r.propagated@.len() == 0
                && r.action is None)
            &&& (old(state).in_transaction ==> ({
                &&& final(state).in_transaction == false
                &&& final(state).queued_commands@.len() == 0
                &&& r.replies@.len() == 1
                &&& r.action is None
                &&& (resp_view(r.replies@[0]) matches RespData::Array(rs) && rs.len() == old(
                    state,
                ).queued_commands@.len() && exec_children_rel(
                    old(srv).db.entries@,
                    old(state).queued_commands@,
                    rs,
                    final(srv).db.entries@,
                    now,
                ) && crate::bytesutil::views_of(r.propagated@) == (if config.replicaof is None {
                    exec_propagated(old(state).queued_commands@, rs)
                } else {
                    Seq::<Seq<u8>>::empty()
                }))
            }))
        }),
        // ACL answers the three subcommands over the user table
        old(auth).authenticated && cmd@ == "ACL".spec_bytes() ==> ({
            let iv = resp_seq_view(items@);
            let sub = spec_upper(spec_arg(iv, 1));
            &&& r.replies@.len() == 1
            &&& r.propagated@.len() == 0
            &&& r.action is None
            &&& (sub == "WHOAMI".spec_bytes() ==> resp_view(r.replies@[0])
                == RespData::BulkString("default".spec_bytes()) && *final(srv) == *old(srv))
            &&& (sub == "GETUSER".spec_bytes() ==> *final(srv) == *old(srv) && (if spec_arg(
                iv,
                2,
            ) == "default".spec_bytes() {
                match crate::auth::users_get(old(srv).users.users@, "default".spec_bytes()) {
                    Some(p) => match p {
                        None => resp_view(r.replies@[0]) == crate::auth::acl_nopass_reply(),
                        Some(pw) => resp_view(r.replies@[0]) == crate::auth::acl_pass_reply(pw),
                    },
                    None => resp_view(r.replies@[0]) == crate::auth::acl_nopass_reply(),
                }
            } else {
                resp_view(r.replies@[0]) == RespData::SimpleError(
                    "ERR no such user".spec_bytes(),
                )
            }))
            &&& (sub == "SETUSER".spec_bytes() && iv.len() >= 4 ==> ({
                let marked = spec_arg(iv, 3);
                let pw = if marked.len() >= 1 {
                    marked.subrange(1, marked.len() as int)
                } else {
                    Seq::<u8>::empty()
                };
                &&& resp_view(r.replies@[0]) == RespData::SimpleString(crate::replies::ok_msg())
                &&& crate::auth::users_get(final(srv).users.users@, spec_arg(iv, 2)) == Some(
                    Some(pw),
                )
                &&& (forall|u2: Seq<u8>|
                    u2 != spec_arg(iv, 2) ==> #[trigger] crate::auth::users_get(
                        final(srv).users.users@,
                        u2,
                    ) == crate::auth::users_get(old(srv).users.users@, u2))
            }))
            &&& (!(sub == "WHOAMI".spec_bytes() || sub == "GETUSER".spec_bytes() || (sub
                == "SETUSER".spec_bytes() && iv.len() >= 4)) ==> resp_view(r.replies@[0])
                == RespData::SimpleError("ERR invalid ACL command".spec_bytes()) && *final(srv)
                == *old(srv))
        }),
        // AUTH grants the session on a matching user and password
        cmd@ == "AUTH".spec_bytes() ==> ({
            let iv = resp_seq_view(items@);
            let ok = crate::auth::users_get(old(srv).users.users@, spec_arg(iv, 1))
                matches Some(p) && (p matches Some(expected) && expected == spec_arg(iv, 2));
            &&& r.replies@.len() == 1
            &&& *final(srv) == *old(srv)
            &&& r.propagated@.len() == 0
            &&& if ok {
                &&& resp_view(r.replies@[0]) == RespData::SimpleString(crate::replies::ok_msg())
                &&& final(auth).authenticated == true
                &&& final(auth).username@ == spec_arg(iv, 1)
            } else {
                &&& resp_view(r.replies@[0]) == RespData::SimpleError(
                    crate::replies::wrongpass_msg(),
                )
                &&& *final(auth) == *old(auth)
            }
        }),
{
    proof {
        crate::resp::lemma_resp_seq_view(items@);
        lemma_command_bytes();
    }
    let is_subscribed = state.is_subscribed();
    let is_master = config.replicaof.is_none();
    if !auth.authenticated && !bytes_eq_slice(cmd, "AUTH".as_bytes()) {
        return reply_outcome(reply_noauth());
    }
    match dispatch_basic(cmd, items, state, srv, config, now) {
        Some(out) => {
            return out;
        },
        None => {},
    }
    match dispatch_keyspace(cmd, items, srv, config, now) {
        Some(out) => {
            return out;
        },
        None => {},
    }
    match dispatch_zsets(cmd, items, srv, config, now) {
        Some(out) => {
            return out;
        },
        None => {},
    }
    match dispatch_lists(cmd, items, state, srv, config, now) {
        Some(out) => {
            return out;
        },
        None => {},
    }
    match dispatch_streams(cmd, items, srv, now, wall_ms) {
        Some(out) => {
            return out;
        },
        None => {},
    }
    if bytes_eq_slice(cmd, "GEOADD".as_bytes()) && items.len() >= 5 {
        let key = arg_bytes(items, 1);
        let lon = arg_bytes(items, 2);
        let lat = arg_bytes(items, 3);
        let member = arg_bytes(items, 4);
        match (crate::score::score_parse(&lon), crate::score::score_parse(&lat)) {
            (Some(lo), Some(la)) => {
                if crate::geo::lon_in_range(&lo) && crate::geo::lat_in_range(&la) {
                    // the frame reaches the replicas only after the caller
                    // has applied the addition and it succeeded
                    let frame: Option<Vec<u8>> = if is_master {
                        Some(crate::resp::encode_array_frame(items))
                    } else {
                        None
                    };
                    blocked_outcome(Action::GeoAdd { key, member, lon, lat, frame })
                } else {
                    reply_outcome(crate::geo::bad_coords_reply(&lo, &la))
                }
            },
            _ => reply_outcome(
                RespValue::SimpleError(
                    crate::bytesutil::str_bytes("ERR invalid longitude,latitude pair"),
                ),
            ),
        }
    } else if bytes_eq_slice(cmd, "GEOPOS".as_bytes()) && items.len() >= 3 {
        let key = arg_bytes(items, 1);
        let members = collect_args_from(items, 2);
        proof {
            let iv = resp_seq_view(items@);
            crate::bytesutil::lemma_views_of(members@);
            assert forall|j: int|
                0 <= j < members@.len() implies crate::bytesutil::views_of(members@)[j]
                == Seq::new((iv.len() - 2) as nat, |j2: int| spec_arg(iv, 2 + j2))[j] by {
                assert(crate::bytesutil::views_of(members@)[j] == members@[j]@);
            }
            assert(crate::bytesutil::views_of(members@) =~= Seq::new(
                (iv.len() - 2) as nat,
                |j: int| spec_arg(iv, 2 + j),
            ));
        }
        blocked_outcome(Action::GeoPos { key, members })
    } else if bytes_eq_slice(cmd, "GEODIST".as_bytes()) && items.len() >= 3 {
        let key = arg_bytes(items, 1);
        let m1 = arg_bytes(items, 2);
        let m2 = if items.len() > 3 {
            arg_bytes(items, 3)
        } else {
            Vec::new()
        };
        blocked_outcome(Action::GeoDist { key, m1, m2 })
    } else if bytes_eq_slice(cmd, "GEOSEARCH".as_bytes()) && items.len() >= 7 {
        let key = arg_bytes(items, 1);
        let lon = arg_bytes(items, 3);
        let lat = arg_bytes(items, 4);
        let radius = arg_bytes(items, 6);
        blocked_outcome(Action::GeoSearch { key, lon, lat, radius })
    } else if bytes_eq_slice(cmd, "EXEC".as_bytes()) {
        handle_exec(state, srv, config, items, now)
    } else if bytes_eq_slice(cmd, "ACL".as_bytes()) {
        handle_acl(items, srv)
    } else if bytes_eq_slice(cmd, "AUTH".as_bytes()) {
        let username = arg_bytes(items, 1);
        let password = arg_bytes(items, 2);
        reply_outcome(crate::auth::handle_auth(&srv.users, auth, &username, &password))
    } else {
        reply_outcome(crate::replies::reply_unknown())
    }
}

/// `EXEC`: without an open transaction, the exact error; otherwise run
/// the queued frames in order against the keyspace, reply with the
/// array of their replies (one per frame, per [`exec_child_rel`]),
/// empty the queue, close the transaction, and hand each successful
/// mutating child's frame on to the replicas.
fn handle_exec(
    state: &mut ClientState,
    srv: &mut ServerState,
    config: &ServerConfig,
    items: &Vec<RespValue>,
    now: u64,
) -> (r: Outcome)
    requires
        old(srv).wf(),
    ensures
        final(srv).wf(),
        one_reply(r),
        r.propagated@.len() >= 1 ==> config.replicaof is None,
        !old(state).in_transaction ==> r.replies@.len() == 1 && resp_view(r.replies@[0])
            == RespData::SimpleError(crate::replies::exec_no_multi_msg()) && *final(state)
            == *old(state) && *final(srv) == *old(srv) && r.propagated@.len() == 0 && r.action
            is None,
        old(state).in_transaction ==> ({
            &&& final(state).in_transaction == false
            &&& final(state).queued_commands@.len() == 0
            &&& r.replies@.len() == 1
            &&& r.action is None
            &&& (resp_view(r.replies@[0]) matches RespData::Array(rs) && rs.len() == old(
                state,
            ).queued_commands@.len() && exec_children_rel(
                old(srv).db.entries@,
                old(state).queued_commands@,
                rs,
                final(srv).db.entries@,
                now,
            ))
            &&& (forall|j: int|
                0 <= j < r.propagated@.len() ==> exists|i: int|
                    0 <= i < old(state).queued_commands@.len() && (#[trigger] r.propagated@[j])@
                        == crate::resp::spec_encode(
                        resp_view(old(state).queued_commands@[i]),
                    ))
            &&& (resp_view(r.replies@[0]) matches RespData::Array(rs)
                && crate::bytesutil::views_of(r.propagated@) == (
            if config.replicaof is None {
                exec_propagated(old(state).queued_commands@, rs)
            } else {
                Seq::<Seq<u8>>::empty()
            }))
        }),
{
    if !state.in_transaction {
        return reply_outcome(
            RespValue::SimpleError(crate::bytesutil::str_bytes("ERR EXEC without MULTI")),
        );
    }
    state.in_transaction = false;
    let is_master = config.replicaof.is_none();
    let ghost db0 = srv.db.entries@;
    let ghost q = state.queued_commands@;
    let mut responses: Vec<RespValue> = Vec::new();
    let mut propagated: Vec<Vec<u8>> = Vec::new();
    let mut i: usize = 0;
    let n = state.queued_commands.len();
    proof {
        crate::resp::lemma_resp_seq_view(responses@);
        assert(q.subrange(0, 0) =~= Seq::<RespValue>::empty());
        assert(resp_seq_view(responses@) =~= Seq::<RespData>::empty());
        assert(crate::bytesutil::views_of(propagated@) =~= Seq::<Seq<u8>>::empty());
    }
    while i < n
        invariant
            srv.wf(),
            q == state.queued_commands@,
            n == q.len(),
            i <= n,
            is_master == (config.replicaof is None),
            propagated@.len() >= 1 ==> config.replicaof is None,
            resp_seq_view(responses@).len() == i,
            exec_children_rel(
                db0,
                q.subrange(0, i as int),
                resp_seq_view(responses@),
                srv.db.entries@,
                now,
            ),
            forall|j: int|
                0 <= j < propagated@.len() ==> exists|i2: int|
                    0 <= i2 < q.len() && (#[trigger] propagated@[j])@
                        == crate::resp::spec_encode(resp_view(q[i2])),
            crate::bytesutil::views_of(propagated@) == (if is_master {
                exec_propagated(q.subrange(0, i as int), resp_seq_view(responses@))
            } else {
                Seq::<Seq<u8>>::empty()
            }),
        decreases n - i,
    {
        let ghost mid0 = srv.db.entries@;
        let ghost rs0 = resp_seq_view(responses@);
        let ghost rv0 = responses@;
        let ghost prop0 = propagated@;
        let reply: RespValue;
        let ghost mut pushed_frame = false;
        match &state.queued_commands[i] {
            RespValue::Array(its) => {
                proof {
                    assert(q[i as int] == state.queued_commands@[i as int]);
                    assert(q[i as int] is Array && q[i as int]->Array_0 == *its);
                    crate::resp::lemma_resp_seq_view(its@);
                }
                if its.len() <= 0x7fff_ffff {
                    reply = execute_command(its, &mut srv.db, now);
                    let ok = !is_error_reply(&reply);
                    let child_cmd = to_upper(&arg_bytes(its, 0));
                    let mutating = bytes_eq_slice(&child_cmd, "SET".as_bytes())
                        || bytes_eq_slice(&child_cmd, "INCR".as_bytes()) || bytes_eq_slice(
                        &child_cmd,
                        "DEL".as_bytes(),
                    );
                    proof {
                        assert(exec_child_rel(
                            mid0,
                            resp_view(q[i as int]),
                            resp_view(reply),
                            srv.db.entries@,
                            now,
                        ));
                    }
                    if ok && mutating && is_master {
                        let frame = srv.propagate_frame(its);
                        proof {
                            assert(resp_view(q[i as int]) == RespData::Array(
                                resp_seq_view(its@),
                            ));
                            assert(frame@ == crate::resp::spec_encode(resp_view(q[i as int])));
                            pushed_frame = true;
                        }
                        propagated.push(frame);
                    }
                    proof {
                        if is_master {
                            assert(pushed_frame == exec_child_propagates(
                                q[i as int],
                                resp_view(reply),
                            ));
                        }
                    }
                } else {
                    reply = RespValue::SimpleError(
                        crate::bytesutil::str_bytes("ERR invalid command"),
                    );
                    proof {
                        assert(exec_child_rel(
                            mid0,
                            resp_view(q[i as int]),
                            resp_view(reply),
                            srv.db.entries@,
                            now,
                        ));
                    }
                }
            },
            _ => {
                reply = RespValue::SimpleError(
                    crate::bytesutil::str_bytes("ERR invalid command"),
                );
                proof {
                    assert(q[i as int] == state.queued_commands@[i as int]);
                    assert(!(resp_view(q[i as int]) is Array));
                    assert(exec_child_rel(
                        mid0,
                        resp_view(q[i as int]),
                        resp_view(reply),
                        srv.db.entries@,
                        now,
                    ));
                }
            },
        }
        responses.push(reply);
        proof {
            crate::resp::lemma_resp_seq_view_push(rv0, reply);
            assert(responses@ == rv0.push(reply));
            let pre = q.subrange(0, i as int);
            let post = q.subrange(0, i as int + 1);
            assert(post =~= pre.push(q[i as int]));
            lemma_exec_propagated_snoc(pre, rs0, q[i as int], resp_view(reply));
            crate::bytesutil::lemma_views_of(prop0);
            crate::bytesutil::lemma_views_of(propagated@);
            if is_master {
                if pushed_frame {
                    assert(propagated@ == prop0.push(propagated@.last()));
                    assert forall|j: int|
                        0 <= j < propagated@.len() implies crate::bytesutil::views_of(
                        propagated@,
                    )[j] == crate::bytesutil::views_of(prop0).push(propagated@.last()@)[j] by {
                        assert(crate::bytesutil::views_of(propagated@)[j] == propagated@[j]@);
                        if j < prop0.len() {
                            assert(propagated@[j] == prop0[j]);
                            assert(crate::bytesutil::views_of(prop0)[j] == prop0[j]@);
                        }
                    }
                    assert(crate::bytesutil::views_of(propagated@) =~= crate::bytesutil::views_of(
                        prop0,
                    ).push(propagated@.last()@));
                    assert(crate::bytesutil::views_of(propagated@) =~= exec_propagated(
                        post,
                        resp_seq_view(responses@),
                    ));
                } else {
                    assert(propagated@ == prop0);
                    assert(crate::bytesutil::views_of(propagated@) =~= exec_propagated(
                        post,
                        resp_seq_view(responses@),
                    ));
                }
            } else {
                assert(propagated@ == prop0);
                assert(crate::bytesutil::views_of(propagated@) =~= Seq::<Seq<u8>>::empty());
            }
            lemma_exec_children_snoc(
                db0,
                pre,
                rs0,
                mid0,
                q[i as int],
                resp_view(reply),
                srv.db.entries@,
                now,
            );
        }
        i += 1;
    }
    proof {
        assert(q.subrange(0, n as int) =~= q);
    }
    state.queued_commands = Vec::new();
    let mut replies: Vec<RespValue> = Vec::new();
    replies.push(RespValue::Array(responses));
    Outcome { replies, raw: None, action: None, propagated }
}

/// The wire bytes of the ACL subcommand literals.
proof fn lemma_acl_literal_bytes()
    ensures
        "WHOAMI".spec_bytes() == seq![87u8, 72u8, 79u8, 65u8, 77u8, 73u8],
        "GETUSER".spec_bytes() == seq![71u8, 69u8, 84u8, 85u8, 83u8, 69u8, 82u8],
        "SETUSER".spec_bytes() == seq![83u8, 69u8, 84u8, 85u8, 83u8, 69u8, 82u8],
{
    broadcast use vstd::string::group_string_axioms;
    broadcast use vstd::utf8::is_ascii_chars_encode_utf8;

    reveal_strlit("WHOAMI");
    assert(vstd::utf8::is_ascii_chars("WHOAMI"@));
    assert("WHOAMI".spec_bytes() =~= seq![87u8, 72u8, 79u8, 65u8, 77u8, 73u8]);
    reveal_strlit("GETUSER");
    assert(vstd::utf8::is_ascii_chars("GETUSER"@));
    assert("GETUSER".spec_bytes() =~= seq![71u8, 69u8, 84u8, 85u8, 83u8, 69u8, 82u8]);
    reveal_strlit("SETUSER");
    assert(vstd::utf8::is_ascii_chars("SETUSER"@));
    assert("SETUSER".spec_bytes() =~= seq![83u8, 69u8, 84u8, 85u8, 83u8, 69u8, 82u8]);
}

/// `ACL WHOAMI`, `ACL GETUSER`, `ACL SETUSER`: the fixed identity, the
/// default user's flags and password digest, and a user update whose
/// password argument drops its leading marker byte.
fn handle_acl(items: &Vec<RespValue>, srv: &mut ServerState) -> (r: Outcome)
    requires
        old(srv).wf(),
    ensures
        final(srv).wf(),
        one_reply(r),
        r.replies@.len() == 1,
        r.raw is None,
        r.action is None,
        r.propagated@.len() == 0,
        final(srv).replicas == old(srv).replicas,
        ({
            let iv = resp_seq_view(items@);
            let sub = spec_upper(spec_arg(iv, 1));
            &&& (sub == "WHOAMI".spec_bytes() ==> resp_view(r.replies@[0])
                == RespData::BulkString("default".spec_bytes()) && *final(srv) == *old(srv))
            &&& (sub == "GETUSER".spec_bytes() ==> *final(srv) == *old(srv) && (if spec_arg(
                iv,
                2,
            ) == "default".spec_bytes() {
                match crate::auth::users_get(old(srv).users.users@, "default".spec_bytes()) {
                    Some(p) => match p {
                        None => resp_view(r.replies@[0]) == crate::auth::acl_nopass_reply(),
                        Some(pw) => resp_view(r.replies@[0]) == crate::auth::acl_pass_reply(pw),
                    },
                    None => resp_view(r.replies@[0]) == crate::auth::acl_nopass_reply(),
                }
            } else {
                resp_view(r.replies@[0]) == RespData::SimpleError(
                    "ERR no such user".spec_bytes(),
                )
            }))
            &&& (sub == "SETUSER".spec_bytes() && iv.len() >= 4 ==> ({
                let marked = spec_arg(iv, 3);
                let pw = if marked.len() >= 1 {
                    marked.subrange(1, marked.len() as int)
                } else {
                    Seq::<u8>::empty()
                };
                &&& resp_view(r.replies@[0]) == RespData::SimpleString(crate::replies::ok_msg())
                &&& crate::auth::users_get(final(srv).users.users@, spec_arg(iv, 2)) == Some(
                    Some(pw),
                )
                &&& (forall|u2: Seq<u8>|
                    u2 != spec_arg(iv, 2) ==> #[trigger] crate::auth::users_get(
                        final(srv).users.users@,
                        u2,
                    ) == crate::auth::users_get(old(srv).users.users@, u2))
            }))
            &&& (!(sub == "WHOAMI".spec_bytes() || sub == "GETUSER".spec_bytes() || (sub
                == "SETUSER".spec_bytes() && iv.len() >= 4)) ==> resp_view(r.replies@[0])
                == RespData::SimpleError("ERR invalid ACL command".spec_bytes()) && *final(srv)
                == *old(srv))
        }),
{
    proof {
        lemma_acl_literal_bytes();
        crate::resp::lemma_resp_seq_view(items@);
    }
    let sub = to_upper(&arg_bytes(items, 1));
    if bytes_eq_slice(&sub, "WHOAMI".as_bytes()) {
        reply_outcome(RespValue::BulkString(crate::bytesutil::str_bytes("default")))
    } else if bytes_eq_slice(&sub, "GETUSER".as_bytes()) {
        let who = arg_bytes(items, 2);
        if bytes_eq_slice(&who, "default".as_bytes()) {
            reply_outcome(crate::auth::acl_getuser_default(&srv.users))
        } else {
            reply_outcome(
                RespValue::SimpleError(crate::bytesutil::str_bytes("ERR no such user")),
            )
        }
    } else if bytes_eq_slice(&sub, "SETUSER".as_bytes()) && items.len() >= 4 {
        let username = arg_bytes(items, 2);
        let marked = arg_bytes(items, 3);
        // the password argument carries a leading marker byte
        let mut password: Vec<u8> = Vec::new();
        let mut i: usize = 1;
        while i < marked.len()
            invariant
                1 <= i <= marked@.len() || (marked@.len() == 0 && i == 1),
                password@ =~= (if marked@.len() >= 1 {
                    marked@.subrange(1, i as int)
                } else {
                    Seq::<u8>::empty()
                }),
            decreases marked@.len() - i,
        {
            password.push(marked[i]);
            i += 1;
        }
        proof {
            if marked@.len() >= 1 {
                assert(password@ =~= marked@.subrange(1, marked@.len() as int));
            }
        }
        srv.users.set_user(&username, Some(password));
        reply_outcome(crate::replies::reply_ok())
    } else {
        reply_outcome(
            RespValue::SimpleError(crate::bytesutil::str_bytes("ERR invalid ACL command")),
        )
    }
}


/// The first argument index at or after `start` saying `STREAMS`.
pub open spec fn spec_find_streams(iv: Seq<RespData>, start: int) -> Option<int>
    decreases iv.len() - start,
{
    if start < 0 || start >= iv.len() {
        None
    } else if spec_upper(spec_arg(iv, start)) == "STREAMS".spec_bytes() {
        Some(start)
    } else {
        spec_find_streams(iv, start + 1)
    }
}

/// The `BLOCK` timeout of an `XREAD` frame, when the keyword is present
/// and its count is a plain decimal.
pub open spec fn spec_xread_block(iv: Seq<RespData>) -> Option<u64> {
    if iv.len() > 2 && spec_upper(spec_arg(iv, 1)) == "BLOCK".spec_bytes() && spec_arg(
        iv,
        2,
    ).len() > 0 && crate::bytesutil::all_digits(spec_arg(iv, 2)) && crate::bytesutil::dec_val(
        spec_arg(iv, 2),
    ) <= u64::MAX {
        Some(crate::bytesutil::dec_val(spec_arg(iv, 2)) as u64)
    } else {
        None
    }
}

/// The id an `XREAD` bound resolves to: `$` reads the stream's newest
/// id, an explicit id parses, anything else reads as `0-0`.
pub open spec fn spec_resolved_id(
    s: Seq<(Vec<u8>, crate::store::KeyWithExpiry)>,
    key: Seq<u8>,
    idb: Seq<u8>,
    now: u64,
) -> (u64, u64) {
    if idb == seq![36u8] {
        crate::stream::spec_stream_top(s, key, now)
    } else {
        match crate::stream::spec_parse_xadd_id(idb) {
            Some(crate::stream::XaddId::Explicit(m, sq)) => (m, sq),
            _ => (0u64, 0u64),
        }
    }
}

/// What a well-formed `XREAD` frame asks for: the optional block
/// timeout, the stream keys, and their resolved ids.
pub open spec fn spec_xread_plan(
    s: Seq<(Vec<u8>, crate::store::KeyWithExpiry)>,
    iv: Seq<RespData>,
    now: u64,
) -> Option<(Option<u64>, Seq<Seq<u8>>, Seq<(u64, u64)>)> {
    let block = spec_xread_block(iv);
    let start: int = if block is Some {
        3
    } else {
        1
    };
    match spec_find_streams(iv, start) {
        None => None,
        Some(sidx) => {
            let total = iv.len() - sidx - 1;
            if total < 2 || total % 2 != 0 {
                None
            } else {
                let n = total / 2;
                Some(
                    (
                        block,
                        Seq::new(n as nat, |j: int| spec_arg(iv, sidx + 1 + j)),
                        Seq::new(
                            n as nat,
                            |j: int|
                                spec_resolved_id(
                                    s,
                                    spec_arg(iv, sidx + 1 + j),
                                    spec_arg(iv, sidx + 1 + n + j),
                                    now,
                                ),
                        ),
                    ),
                )
            }
        },
    }
}

/// The position of the `STREAMS` keyword, scanning from `start`.
fn find_streams_idx(items: &Vec<RespValue>, start: usize) -> (r: Option<usize>)
    ensures
        (match r {
            Some(i) => Some(i as int),
            None => Option::<int>::None,
        }) == spec_find_streams(resp_seq_view(items@), start as int),
        r matches Some(i) ==> start <= i < items@.len(),
{
    proof {
        crate::resp::lemma_resp_seq_view(items@);
    }
    let ghost iv = resp_seq_view(items@);
    let mut i: usize = start;
    while i < items.len()
        invariant
            iv == resp_seq_view(items@),
            iv.len() == items@.len(),
            start <= i,
            spec_find_streams(iv, start as int) == spec_find_streams(iv, i as int),
        decreases items@.len() - i,
    {
        let a = to_upper(&arg_bytes(items, i));
        if bytes_eq_slice(&a, "STREAMS".as_bytes()) {
            return Some(i);
        }
        i += 1;
    }
    None
}

/// `XREAD [BLOCK ms] STREAMS key… id…`: resolve the plan of the frame
/// and answer exactly the sections of [`crate::stream::xread_streams`]
/// for it; with `BLOCK` and nothing new, hand the resolved keys and ids
/// out so the caller can wait on the stream broadcast and re-check.
#[verifier::rlimit(100)]
#[verifier::spinoff_prover]
fn handle_xread(items: &Vec<RespValue>, srv: &mut ServerState, now: u64) -> (r: Outcome)
    requires
        old(srv).wf(),
    ensures
        final(srv).wf(),
        *final(srv) == *old(srv),
        one_reply(r),
        r.raw is None,
        r.propagated@.len() == 0,
        ({
            let iv = resp_seq_view(items@);
            match spec_xread_plan(old(srv).db.entries@, iv, now) {
                None => r.replies@.len() == 1 && resp_view(r.replies@[0])
                    == RespData::SimpleString(
                    "ERR wrong number of arguments for 'xread' command".spec_bytes(),
                ),
                Some(plan) => ({
                    let sections = crate::stream::xread_streams(
                        old(srv).db.entries@,
                        plan.1,
                        plan.2,
                        now,
                    );
                    match plan.0 {
                        None => r.replies@.len() == 1 && resp_view(r.replies@[0])
                            == RespData::Array(sections),
                        Some(t) => if sections.len() == 0 {
                            r.replies@.len() == 0 && (r.action matches Some(a) && (a
                                matches Action::BlockXread { keys, ids, timeout_ms }
                                && crate::bytesutil::views_of(keys@) == plan.1 && ids@ == plan.2
                                && timeout_ms == t))
                        } else {
                            r.replies@.len() == 1 && resp_view(r.replies@[0])
                                == RespData::Array(sections)
                        },
                    }
                }),
            }
        }),
{
    proof {
        crate::resp::lemma_resp_seq_view(items@);
    }
    let ghost iv = resp_seq_view(items@);
    let ghost s0 = srv.db.entries@;
    let mut block_timeout: Option<u64> = None;
    let mut start_idx: usize = 1;
    if items.len() > 2 {
        let a1 = to_upper(&arg_bytes(items, 1));
        if bytes_eq_slice(&a1, "BLOCK".as_bytes()) {
            let t = arg_bytes(items, 2);
            match crate::bytesutil::parse_u64(&t) {
                Some(ms) => {
                    block_timeout = Some(ms);
                    start_idx = 3;
                },
                None => {},
            }
        }
    }
    proof {
        assert(block_timeout == spec_xread_block(iv));
    }
    let streams_idx = find_streams_idx(items, start_idx);
    let sidx = match streams_idx {
        Some(x) => x,
        None => {
            return reply_outcome(
                RespValue::SimpleString(
                    crate::bytesutil::str_bytes(
                        "ERR wrong number of arguments for 'xread' command",
                    ),
                ),
            );
        },
    };
    let total = items.len() - sidx - 1;
    if total < 2 || total % 2 != 0 {
        return reply_outcome(
            RespValue::SimpleString(
                crate::bytesutil::str_bytes("ERR wrong number of arguments for 'xread' command"),
            ),
        );
    }
    let nstreams = total / 2;
    proof {
        assert(nstreams + nstreams <= total);
    }
    let ghost plan = spec_xread_plan(s0, iv, now)->Some_0;
    let mut keys: Vec<Vec<u8>> = Vec::new();
    let mut ids: Vec<(u64, u64)> = Vec::new();
    let mut k: usize = 0;
    while k < nstreams
        invariant
            srv.wf(),
            s0 == srv.db.entries@,
            iv == resp_seq_view(items@),
            iv.len() == items@.len(),
            keys@.len() == k,
            ids@.len() == k,
            k <= nstreams,
            items@.len() <= usize::MAX,
            sidx + 1 + nstreams + nstreams <= items@.len(),
            forall|j: int|
                0 <= j < k ==> (#[trigger] keys@[j])@ == spec_arg(iv, sidx + 1 + j),
            forall|j: int|
                0 <= j < k ==> #[trigger] ids@[j] == spec_resolved_id(
                    s0,
                    spec_arg(iv, sidx + 1 + j),
                    spec_arg(iv, sidx + 1 + nstreams + j),
                    now,
                ),
        decreases nstreams - k,
    {
        let key = arg_bytes(items, sidx + 1 + k);
        let id_arg = arg_bytes(items, sidx + 1 + nstreams + k);
        let id: (u64, u64) = if id_arg.len() == 1 && id_arg[0] == 36 {
            proof {
                assert(id_arg@ =~= seq![36u8]);
            }
            srv.db.stream_largest(&key, now)
        } else {
            proof {
                if id_arg@ == seq![36u8] {
                    assert(id_arg@.len() == 1 && id_arg@[0] == 36);
                    assert(false);
                }
            }
            match crate::stream::parse_xadd_id(&id_arg) {
                Some(crate::stream::XaddId::Explicit(m, s)) => (m, s),
                _ => (0, 0),
            }
        };
        keys.push(key);
        ids.push(id);
        k += 1;
    }
    proof {
        crate::bytesutil::lemma_views_of(keys@);
        let start_spec: int = if spec_xread_block(iv) is Some {
            3
        } else {
            1
        };
        assert(start_idx as int == start_spec);
        assert(spec_find_streams(iv, start_spec) == Some(sidx as int));
        assert(iv.len() - sidx - 1 == total);
        assert(total % 2 == 0 && total >= 2);
        assert((iv.len() - sidx as int - 1) / 2 == nstreams as int);
        assert(spec_xread_plan(s0, iv, now) is Some);
        assert(plan.0 == block_timeout);
        assert(plan.1 =~= Seq::new(
            nstreams as nat,
            |j: int| spec_arg(iv, sidx as int + 1 + j),
        ));
        assert forall|j: int|
            0 <= j < nstreams implies crate::bytesutil::views_of(keys@)[j] == plan.1[j] by {
            assert(crate::bytesutil::views_of(keys@)[j] == (#[trigger] keys@[j])@);
        }
        assert(crate::bytesutil::views_of(keys@) =~= plan.1);
        assert(ids@ =~= plan.2);
    }
    let sections = srv.db.xread_collect(&keys, &ids, now);
    match block_timeout {
        Some(ms) => {
            if sections.len() == 0 {
                proof {
                    crate::resp::lemma_resp_seq_view(sections@);
                }
                blocked_outcome(Action::BlockXread { keys, ids, timeout_ms: ms })
            } else {
                reply_outcome(RespValue::Array(sections))
            }
        },
        None => reply_outcome(RespValue::Array(sections)),
    }
}

/// The subscribed-mode error: `ERR Can't execute '<cmd>' in subscribed
/// mode`, with the command lower-cased.
pub open spec fn subscribed_err_msg(cmd_lower: Seq<u8>) -> Seq<u8> {
    "ERR Can't execute '".spec_bytes() + cmd_lower + "' in subscribed mode".spec_bytes()
}

/// Lower-case image of one byte.
pub open spec fn lower_byte(b: u8) -> u8 {
    if 65 <= b <= 90 {
        (b + 32) as u8
    } else {
        b
    }
}

/// ASCII lower-case copy of a byte vector.
fn to_lower(s: &Vec<u8>) -> (r: Vec<u8>)
    ensures
        r@ == s@.map_values(|b: u8| lower_byte(b)),
{
    let mut r: Vec<u8> = Vec::new();
    let mut i: usize = 0;
    while i < s.len()
        invariant
            i <= s@.len(),
            r@.len() == i,
            forall|j: int| 0 <= j < i ==> r@[j] == lower_byte(s@[j]),
        decreases s@.len() - i,
    {
        let b = s[i];
        if 65 <= b && b <= 90 {
            r.push(b + 32);
        } else {
            r.push(b);
        }
        i += 1;
    }
    proof {
        assert(r@ =~= s@.map_values(|b: u8| lower_byte(b)));
    }
    r
}

/// Process one inbound frame, applying the gates in order: the
/// authentication gate, the subscribed-mode whitelist, transaction
/// queueing (which queues `PSYNC` like any other command), then the
/// `PSYNC` promotion, and otherwise dispatch.  Exactly one reply is
/// produced unless the outcome defers it.
pub fn process_command(
    frame: &RespValue,
    state: &mut ClientState,
    auth: &mut AuthState,
    srv: &mut ServerState,
    config: &ServerConfig,
    now: u64,
    wall_ms: u64,
) -> (r: Outcome)
    requires
        old(srv).wf(),
    ensures
        final(srv).wf(),
        one_reply(r),
        ({
            // only AUTH may change the authentication state
            let fv = resp_view(*frame);
            let cmd = spec_upper(spec_arg(match fv {
                RespData::Array(its) => its,
                _ => Seq::empty(),
            }, 0));
            cmd != "AUTH".spec_bytes() ==> *final(auth) == *old(auth)
        }),
        ({
            // the authentication gate comes first: an unauthenticated
            // connection gets the NOAUTH error for anything but AUTH
            let fv = resp_view(*frame);
            let cmd = spec_upper(spec_arg(match fv {
                RespData::Array(its) => its,
                _ => Seq::empty(),
            }, 0));
            (fv is Array && (fv matches RespData::Array(its) && its.len() > 0 && (its[0] is BulkString
                || its[0] is SimpleString)) && !old(auth).authenticated && cmd
                != "AUTH".spec_bytes()) ==> ({
                &&& r.replies@.len() == 1
                &&& resp_view(r.replies@[0]) == RespData::SimpleError(noauth_msg())
                &&& *final(srv) == *old(srv)
                &&& *final(state) == *old(state)
                &&& *final(auth) == *old(auth)
                &&& r.action is None
                &&& r.propagated@.len() == 0
            })
        }),
        ({
            // a command queued inside a transaction (PSYNC included):
            // the frame lands on the queue verbatim, the reply is
            // +QUEUED
            let fv = resp_view(*frame);
            let cmd = spec_upper(spec_arg(match fv {
                RespData::Array(its) => its,
                _ => Seq::empty(),
            }, 0));
            (fv is Array && (fv matches RespData::Array(its) && its.len() > 0 && (its[0] is BulkString
                || its[0] is SimpleString)) && (old(auth).authenticated || cmd
                == "AUTH".spec_bytes()) && old(state).in_transaction && !(old(
                state,
            ).subscribed_channels@.len() > 0 && !spec_allowed_subscribed(cmd)) && cmd
                != "MULTI".spec_bytes() && cmd != "EXEC".spec_bytes() && cmd
                != "DISCARD".spec_bytes()) ==> ({
                &&& final(state).queued_commands@.len() == old(state).queued_commands@.len() + 1
                &&& resp_view(final(state).queued_commands@.last()) == fv
                &&& r.replies@.len() == 1
                &&& resp_view(r.replies@[0]) == RespData::SimpleString(
                    crate::replies::queued_msg(),
                )
                &&& *final(srv) == *old(srv)
                &&& *final(auth) == *old(auth)
                &&& r.action is None
                &&& r.propagated@.len() == 0
            })
        }),
        ({
            // the subscribed-mode whitelist: other commands are refused
            let fv = resp_view(*frame);
            let cmd = spec_upper(spec_arg(match fv {
                RespData::Array(its) => its,
                _ => Seq::empty(),
            }, 0));
            (fv is Array && (fv matches RespData::Array(its) && its.len() > 0 && (its[0] is BulkString
                || its[0] is SimpleString)) && (old(auth).authenticated || cmd
                == "AUTH".spec_bytes()) && old(state).subscribed_channels@.len() > 0
                && !spec_allowed_subscribed(cmd)) ==> ({
                let low = spec_arg(match fv {
                    RespData::Array(its) => its,
                    _ => Seq::empty(),
                }, 0).map_values(|x: u8| lower_byte(x));
                &&& r.replies@.len() == 1
                &&& resp_view(r.replies@[0]) == RespData::SimpleError(subscribed_err_msg(low))
                &&& *final(srv) == *old(srv)
                &&& *final(state) == *old(state)
                &&& *final(auth) == *old(auth)
                &&& r.action is None
                &&& r.propagated@.len() == 0
            })
        }),
        ({
            // PSYNC: the FULLRESYNC line, the raw snapshot image, the
            // promotion signal, and a fresh zero counter for the replica
            let fv = resp_view(*frame);
            let cmd = spec_upper(spec_arg(match fv {
                RespData::Array(its) => its,
                _ => Seq::empty(),
            }, 0));
            (fv is Array && (fv matches RespData::Array(its) && its.len() >= 1 && its.len() >= 2
                && (its[0] is BulkString || its[0] is SimpleString)) && cmd
                == "PSYNC".spec_bytes() && old(auth).authenticated && !old(
                state,
            ).in_transaction && !(old(state).subscribed_channels@.len() > 0
                && !spec_allowed_subscribed(cmd))) ==> ({
                &&& r.replies@.len() == 1
                &&& resp_view(r.replies@[0]) == RespData::SimpleString(
                    "FULLRESYNC ".spec_bytes() + config.replication_id@ + " 0".spec_bytes(),
                )
                &&& (r.raw matches Some(p) && ({
                    let header = seq![36u8] + crate::bytesutil::spec_u64_digits(88) + seq![
                        13u8,
                        10u8,
                    ];
                    p@.len() == header.len() + 88 && p@.subrange(0, header.len() as int)
                        == header
                }))
                &&& r.action == Some(Action::BecomeReplica)
                &&& final(srv).replicas.offsets@ == old(srv).replicas.offsets@.push(0i64)
                &&& r.propagated@.len() == 0
            })
        }),
{
    match frame {
        RespValue::Array(items) => {
            proof {
                crate::resp::lemma_resp_seq_view(items@);
            }
            if items.len() == 0 {
                return reply_outcome(crate::replies::reply_pong());
            }
            let head_ok = match &items[0] {
                RespValue::BulkString(_) => true,
                RespValue::SimpleString(_) => true,
                _ => false,
            };
            if !head_ok {
                return reply_outcome(crate::replies::reply_pong());
            }
            let cmd = to_upper(&arg_bytes(items, 0));
            if !auth.authenticated && !bytes_eq_slice(&cmd, "AUTH".as_bytes()) {
                return reply_outcome(reply_noauth());
            }
            if state.is_subscribed() && !is_allowed_in_subscribed_mode(&cmd) {
                let lower = to_lower(&arg_bytes(items, 0));
                let ghost low = lower@;
                let mut msg = crate::bytesutil::str_bytes("ERR Can't execute '");
                let mut mid = lower;
                msg.append(&mut mid);
                let mut tail = crate::bytesutil::str_bytes("' in subscribed mode");
                msg.append(&mut tail);
                proof {
                    assert(msg@ =~= subscribed_err_msg(low));
                }
                return reply_outcome(RespValue::SimpleError(msg));
            }
            let is_control = bytes_eq_slice(&cmd, "MULTI".as_bytes()) || bytes_eq_slice(
                &cmd,
                "EXEC".as_bytes(),
            ) || bytes_eq_slice(&cmd, "DISCARD".as_bytes());
            let is_psync = bytes_eq_slice(&cmd, "PSYNC".as_bytes());
            if state.in_transaction && !is_control {
                let copied = crate::resp::value_clone(frame);
                let ghost q0 = state.queued_commands@;
                state.queued_commands.push(copied);
                proof {
                    assert(state.queued_commands@.last() == state.queued_commands@[q0.len() as int]);
                }
                return reply_outcome(crate::replies::reply_queued());
            }
            if is_psync && items.len() >= 2 {
                let reply = crate::repl::fullresync_reply(&config.replication_id);
                let payload = crate::repl::fullresync_payload();
                srv.replicas.add_replica();
                let mut replies: Vec<RespValue> = Vec::new();
                replies.push(reply);
                return Outcome {
                    replies,
                    raw: Some(payload),
                    action: Some(Action::BecomeReplica),
                    propagated: Vec::new(),
                };
            }
            if (items.len() as u64) <= 0x7fff_ffff_ffff_ffff {
                dispatch_command(&cmd, items, state, auth, srv, config, now, wall_ms)
            } else {
                reply_outcome(crate::replies::reply_unknown())
            }
        },
        _ => reply_outcome(crate::replies::reply_pong()),
    }
}


/// The wire bytes of the literals the replica-side contract
/// distinguishes.
proof fn lemma_replica_literal_bytes()
    ensures
        "SET".spec_bytes() == seq![83u8, 69u8, 84u8],
        "DEL".spec_bytes() == seq![68u8, 69u8, 76u8],
        "REPLCONF".spec_bytes() == seq![82u8, 69u8, 80u8, 76u8, 67u8, 79u8, 78u8, 70u8],
        "GETACK".spec_bytes() == seq![71u8, 69u8, 84u8, 65u8, 67u8, 75u8],
{
    broadcast use vstd::string::group_string_axioms;
    broadcast use vstd::utf8::is_ascii_chars_encode_utf8;

    reveal_strlit("SET");
    assert(vstd::utf8::is_ascii_chars("SET"@));
    assert("SET".spec_bytes() =~= seq![83u8, 69u8, 84u8]);
    reveal_strlit("DEL");
    assert(vstd::utf8::is_ascii_chars("DEL"@));
    assert("DEL".spec_bytes() =~= seq![68u8, 69u8, 76u8]);
    reveal_strlit("REPLCONF");
    assert(vstd::utf8::is_ascii_chars("REPLCONF"@));
    assert("REPLCONF".spec_bytes() =~= seq![82u8, 69u8, 80u8, 76u8, 67u8, 79u8, 78u8, 70u8]);
    reveal_strlit("GETACK");
    assert(vstd::utf8::is_ascii_chars("GETACK"@));
    assert("GETACK".spec_bytes() =~= seq![71u8, 69u8, 84u8, 65u8, 67u8, 75u8]);
}

/// One step of the replica-side loop: apply a frame read from the
/// master silently, answer `REPLCONF GETACK` with the offset before the
/// frame, and count the frame's bytes afterwards in every case.
pub fn replica_apply(
    db: &mut Db,
    offset: i64,
    frame: &RespValue,
    used: usize,
    now: u64,
) -> (r: (Option<RespValue>, i64))
    requires
        old(db).wf(),
    ensures
        final(db).wf(),
        r.1 == crate::repl::spec_offset_after(offset, used as nat),
        ({
            let fv = resp_view(*frame);
            let iv = match fv {
                RespData::Array(its) => its,
                _ => Seq::empty(),
            };
            let cmd = spec_upper(spec_arg(iv, 0));
            let sub = spec_upper(spec_arg(iv, 1));
            &&& ((fv is Array && cmd == "REPLCONF".spec_bytes() && sub == "GETACK".spec_bytes())
                ==> (r.0 matches Some(v) && resp_view(v) == RespData::Array(
                seq![
                    RespData::BulkString("REPLCONF".spec_bytes()),
                    RespData::BulkString("ACK".spec_bytes()),
                    RespData::BulkString(crate::bytesutil::spec_i64_digits(offset as int)),
                ],
            )))
            &&& (!(fv is Array && cmd == "REPLCONF".spec_bytes() && sub == "GETACK".spec_bytes())
                ==> r.0 is None)
            &&& ((fv is Array && cmd == "SET".spec_bytes() && iv.len() >= 3) ==> ({
                &&& (crate::store::assoc_get(final(db).entries@, spec_arg(iv, 1)) matches Some(e)
                    && (e.value matches crate::store::ValueType::Str(v) && v@ == spec_arg(iv, 2))
                    && e.expiry == (match spec_set_px(iv) {
                    None => None,
                    Some(ms) => Some(crate::store::spec_deadline(now, ms)),
                }))
                &&& (forall|k2: Seq<u8>|
                    k2 != spec_arg(iv, 1) ==> #[trigger] crate::store::assoc_get(
                        final(db).entries@,
                        k2,
                    ) == crate::store::assoc_get(old(db).entries@, k2))
            }))
            &&& ((fv is Array && cmd == "DEL".spec_bytes() && iv.len() >= 2 && iv.len()
                <= 0x7fff_ffff) ==> final(db).entries@ == crate::store::spec_del_entries(
                old(db).entries@,
                Seq::new((iv.len() - 1) as nat, |j: int| spec_arg(iv, 1 + j)),
            ))
            &&& (!((fv is Array && cmd == "SET".spec_bytes() && iv.len() >= 3) || (fv is Array
                && cmd == "DEL".spec_bytes() && iv.len() >= 2 && iv.len() <= 0x7fff_ffff))
                ==> final(db).entries@ == old(db).entries@)
        }),
{
    proof {
        lemma_replica_literal_bytes();
    }
    match frame {
        RespValue::Array(items) => {
            proof {
                crate::resp::lemma_resp_seq_view(items@);
            }
            if items.len() == 0 {
                return (None, crate::repl::offset_after(offset, used));
            }
            let cmd = to_upper(&arg_bytes(items, 0));
            if bytes_eq_slice(&cmd, "SET".as_bytes()) && items.len() >= 3 {
                let key = arg_bytes(items, 1);
                let val = arg_bytes(items, 2);
                let px = set_px_of(items);
                db.set_key_silent(key, val, px, now);
                (None, crate::repl::offset_after(offset, used))
            } else if bytes_eq_slice(&cmd, "DEL".as_bytes()) && items.len() >= 2 && items.len()
                <= 0x7fff_ffff {
                let keys = collect_args_from(items, 1);
                db.del_key_silent(&keys);
                proof {
                    crate::bytesutil::lemma_views_of(keys@);
                    crate::resp::lemma_resp_seq_view(items@);
                    let iv = resp_seq_view(items@);
                    assert(keys@.len() == iv.len() - 1);
                    assert forall|j: int|
                        0 <= j < keys@.len() implies crate::bytesutil::views_of(keys@)[j]
                        == spec_arg(iv, 1 + j) by {
                        assert(crate::bytesutil::views_of(keys@)[j] == (#[trigger] keys@[j])@);
                    }
                    assert(crate::bytesutil::views_of(keys@) =~= Seq::new(
                        (iv.len() - 1) as nat,
                        |j: int| spec_arg(iv, 1 + j),
                    ));
                }
                (None, crate::repl::offset_after(offset, used))
            } else if bytes_eq_slice(&cmd, "REPLCONF".as_bytes()) {
                let sub = to_upper(&arg_bytes(items, 1));
                if bytes_eq_slice(&sub, "GETACK".as_bytes()) {
                    let ack = crate::repl::ack_frame(offset);
                    (Some(ack), crate::repl::offset_after(offset, used))
                } else {
                    (None, crate::repl::offset_after(offset, used))
                }
            } else {
                (None, crate::repl::offset_after(offset, used))
            }
        },
        _ => (None, crate::repl::offset_after(offset, used)),
    }
}

} // verus!
