//! End-to-end command handling through the dispatcher: gates,
//! transactions, pub/sub, replication bookkeeping and the scenario
//! flows.

use miniredis::auth::AuthState;
use miniredis::dispatch::{
    Action, ClientState, Outcome, ServerConfig, ServerState, process_command,
};
use miniredis::resp::{RespValue, encode, parse_msg};

fn b(s: &[u8]) -> Vec<u8> {
    s.to_vec()
}

fn frame(parts: &[&[u8]]) -> RespValue {
    RespValue::Array(parts.iter().map(|p| RespValue::BulkString(p.to_vec())).collect())
}

fn master_config() -> ServerConfig {
    ServerConfig {
        dir: b(b"."),
        dbfilename: b(b"dump.rdb"),
        port: b(b"6379"),
        replicaof: None,
        replication_id: b(b"0123456789012345678901234567890123456789"),
    }
}

struct Conn {
    state: ClientState,
    auth: AuthState,
}

fn conn() -> Conn {
    Conn {
        state: ClientState::new(1),
        auth: AuthState { authenticated: true, username: b(b"default") },
    }
}

fn run(c: &mut Conn, srv: &mut ServerState, cfg: &ServerConfig, parts: &[&[u8]], now: u64) -> Outcome {
    let f = frame(parts);
    process_command(&f, &mut c.state, &mut c.auth, srv, cfg, now, now)
}

fn one_reply_bytes(o: &Outcome) -> Vec<u8> {
    assert_eq!(o.replies.len(), 1);
    encode(&o.replies[0])
}

#[test]
fn expiry_scenario() {
    let mut srv = ServerState::new();
    let cfg = master_config();
    let mut c = conn();
    let set = run(&mut c, &mut srv, &cfg, &[b"SET", b"foo", b"bar", b"PX", b"100"], 0);
    assert_eq!(one_reply_bytes(&set), b"+OK\r\n".to_vec());
    let get1 = run(&mut c, &mut srv, &cfg, &[b"GET", b"foo"], 10);
    assert_eq!(one_reply_bytes(&get1), b"$3\r\nbar\r\n".to_vec());
    let get2 = run(&mut c, &mut srv, &cfg, &[b"GET", b"foo"], 200);
    assert_eq!(one_reply_bytes(&get2), b"$-1\r\n".to_vec());
}

#[test]
fn transaction_scenario() {
    let mut srv = ServerState::new();
    let cfg = master_config();
    let mut c = conn();
    let multi = run(&mut c, &mut srv, &cfg, &[b"MULTI"], 0);
    assert_eq!(one_reply_bytes(&multi), b"+OK\r\n".to_vec());
    let q1 = run(&mut c, &mut srv, &cfg, &[b"INCR", b"counter"], 0);
    assert_eq!(one_reply_bytes(&q1), b"+QUEUED\r\n".to_vec());
    let q2 = run(&mut c, &mut srv, &cfg, &[b"INCR", b"counter"], 0);
    assert_eq!(one_reply_bytes(&q2), b"+QUEUED\r\n".to_vec());
    let exec = run(&mut c, &mut srv, &cfg, &[b"EXEC"], 0);
    assert_eq!(one_reply_bytes(&exec), b"*2\r\n:1\r\n:2\r\n".to_vec());
    let get = run(&mut c, &mut srv, &cfg, &[b"GET", b"counter"], 0);
    assert_eq!(one_reply_bytes(&get), b"$1\r\n2\r\n".to_vec());
}

#[test]
fn exec_without_multi() {
    let mut srv = ServerState::new();
    let cfg = master_config();
    let mut c = conn();
    let r = run(&mut c, &mut srv, &cfg, &[b"EXEC"], 0);
    assert_eq!(one_reply_bytes(&r), b"-ERR EXEC without MULTI\r\n".to_vec());
    let d = run(&mut c, &mut srv, &cfg, &[b"DISCARD"], 0);
    assert_eq!(one_reply_bytes(&d), b"-ERR DISCARD without MULTI\r\n".to_vec());
}

#[test]
fn discard_drops_the_queue() {
    let mut srv = ServerState::new();
    let cfg = master_config();
    let mut c = conn();
    run(&mut c, &mut srv, &cfg, &[b"MULTI"], 0);
    run(&mut c, &mut srv, &cfg, &[b"SET", b"k", b"v"], 0);
    let d = run(&mut c, &mut srv, &cfg, &[b"DISCARD"], 0);
    assert_eq!(one_reply_bytes(&d), b"+OK\r\n".to_vec());
    let g = run(&mut c, &mut srv, &cfg, &[b"GET", b"k"], 0);
    assert_eq!(one_reply_bytes(&g), b"$-1\r\n".to_vec());
}

#[test]
fn blpop_wake_scenario() {
    let mut srv = ServerState::new();
    let cfg = master_config();
    let mut a = conn();
    let mut bc = conn();
    bc.state = ClientState::new(2);
    // A blocks on q
    let blocked = run(&mut a, &mut srv, &cfg, &[b"BLPOP", b"q", b"5"], 0);
    assert_eq!(blocked.replies.len(), 0);
    assert!(matches!(blocked.action, Some(Action::Block { .. })));
    // B pushes; B gets :1 and A's wake carries q/hello
    let push = run(&mut bc, &mut srv, &cfg, &[b"RPUSH", b"q", b"hello"], 100);
    assert_eq!(push.replies.len(), 1);
    assert_eq!(encode(&push.replies[0]), b":1\r\n".to_vec());
    match push.action {
        Some(Action::WakeBlpop { client, key, value }) => {
            assert_eq!(client, 1);
            let reply = miniredis::list::blpop_wake_reply(key, value);
            assert_eq!(encode(&reply), b"*2\r\n$1\r\nq\r\n$5\r\nhello\r\n".to_vec());
        },
        _ => panic!("no wake action"),
    }
}

#[test]
fn pubsub_scenario() {
    let mut srv = ServerState::new();
    let cfg = master_config();
    let mut a = conn();
    let mut bc = conn();
    bc.state = ClientState::new(2);
    let sub = run(&mut a, &mut srv, &cfg, &[b"SUBSCRIBE", b"news"], 0);
    assert_eq!(
        one_reply_bytes(&sub),
        b"*3\r\n$9\r\nsubscribe\r\n$4\r\nnews\r\n:1\r\n".to_vec()
    );
    let publ = run(&mut bc, &mut srv, &cfg, &[b"PUBLISH", b"news", b"hi"], 0);
    assert_eq!(publ.replies.len(), 1);
    assert_eq!(encode(&publ.replies[0]), b":1\r\n".to_vec());
    match publ.action {
        Some(Action::PublishTo { clients, channel, message }) => {
            assert_eq!(clients, vec![1]);
            let push = miniredis::dispatch::make_pubsub_message(&channel, &message);
            assert_eq!(
                encode(&push),
                b"*3\r\n$7\r\nmessage\r\n$4\r\nnews\r\n$2\r\nhi\r\n".to_vec()
            );
        },
        _ => panic!("no publish action"),
    }
}

#[test]
fn subscribed_mode_restricts() {
    let mut srv = ServerState::new();
    let cfg = master_config();
    let mut c = conn();
    run(&mut c, &mut srv, &cfg, &[b"SUBSCRIBE", b"news"], 0);
    let refused = run(&mut c, &mut srv, &cfg, &[b"GET", b"k"], 0);
    assert_eq!(
        one_reply_bytes(&refused),
        b"-ERR Can't execute 'get' in subscribed mode\r\n".to_vec()
    );
    let ping = run(&mut c, &mut srv, &cfg, &[b"PING"], 0);
    assert_eq!(one_reply_bytes(&ping), b"*2\r\n$4\r\npong\r\n$0\r\n\r\n".to_vec());
    let unsub = run(&mut c, &mut srv, &cfg, &[b"UNSUBSCRIBE", b"news"], 0);
    assert_eq!(
        one_reply_bytes(&unsub),
        b"*3\r\n$11\r\nunsubscribe\r\n$4\r\nnews\r\n:0\r\n".to_vec()
    );
}

#[test]
fn auth_gate() {
    let mut srv = ServerState::new();
    let cfg = master_config();
    let mut c = conn();
    c.auth.authenticated = false;
    let refused = run(&mut c, &mut srv, &cfg, &[b"GET", b"k"], 0);
    assert_eq!(
        one_reply_bytes(&refused),
        b"-NOAUTH Authentication required.\r\n".to_vec()
    );
    // wrong password on a nopass default user
    let denied = run(&mut c, &mut srv, &cfg, &[b"AUTH", b"default", b"pw"], 0);
    assert_eq!(one_reply_bytes(&denied), b"-WRONGPASS wrong password\r\n".to_vec());
}

#[test]
fn acl_setuser_then_auth_and_digest() {
    let mut srv = ServerState::new();
    let cfg = master_config();
    let mut c = conn();
    let set = run(&mut c, &mut srv, &cfg, &[b"ACL", b"SETUSER", b"default", b">secret"], 0);
    assert_eq!(one_reply_bytes(&set), b"+OK\r\n".to_vec());
    // the stored digest is the SHA-256 of "secret" in lowercase hex
    let get = run(&mut c, &mut srv, &cfg, &[b"ACL", b"GETUSER", b"default"], 0);
    let bytes = one_reply_bytes(&get);
    let expected_digest = b"2bb80d537b1da3e38bd30361aa855686bde0eacd7162fef6a25fe97bf527a25b";
    let text = String::from_utf8_lossy(&bytes).to_string();
    assert!(text.contains(&String::from_utf8_lossy(expected_digest).to_string()));
    // and AUTH with it succeeds
    let mut c2 = conn();
    c2.auth.authenticated = false;
    let ok = run(&mut c2, &mut srv, &cfg, &[b"AUTH", b"default", b"secret"], 0);
    assert_eq!(one_reply_bytes(&ok), b"+OK\r\n".to_vec());
    assert!(c2.auth.authenticated);
    let whoami = run(&mut c2, &mut srv, &cfg, &[b"ACL", b"WHOAMI"], 0);
    assert_eq!(one_reply_bytes(&whoami), b"$7\r\ndefault\r\n".to_vec());
}

#[test]
fn replication_propagates_and_counts_bytes() {
    let mut srv = ServerState::new();
    let cfg = master_config();
    let mut c = conn();
    // promote one replica via PSYNC
    let psync = run(&mut c, &mut srv, &cfg, &[b"PSYNC", b"?", b"-1"], 0);
    assert!(matches!(psync.action, Some(Action::BecomeReplica)));
    assert_eq!(psync.replies.len(), 1);
    let line = encode(&psync.replies[0]);
    assert!(line.starts_with(b"+FULLRESYNC "));
    let raw = psync.raw.unwrap();
    assert!(raw.starts_with(b"$88\r\n"));
    assert_eq!(raw.len(), 5 + 88);
    // a SET now advances the replica's counter by the frame length
    let mut c2 = conn();
    let set = run(&mut c2, &mut srv, &cfg, &[b"SET", b"k", b"v"], 0);
    assert_eq!(set.propagated.len(), 1);
    let frame_bytes = &set.propagated[0];
    assert_eq!(frame_bytes, &b"*3\r\n$3\r\nSET\r\n$1\r\nk\r\n$1\r\nv\r\n".to_vec());
    assert_eq!(srv.replicas.snapshot(), vec![frame_bytes.len() as i64]);
    // WAIT with pending writes polls; the acknowledgement counts
    let wait = run(&mut c2, &mut srv, &cfg, &[b"WAIT", b"1", b"500"], 0);
    assert_eq!(wait.replies.len(), 0);
    match wait.action {
        Some(Action::Getacks { expected, .. }) => {
            let acks = vec![Some(frame_bytes.len() as i64)];
            let n = miniredis::repl::count_acks(&expected, &acks);
            assert_eq!(n, 1);
            let too_low = miniredis::repl::count_acks(&expected, &vec![Some(3)]);
            assert_eq!(too_low, 0);
            let silent = miniredis::repl::count_acks(&expected, &vec![None]);
            assert_eq!(silent, 0);
        },
        _ => panic!("no getacks"),
    }
}

#[test]
fn wait_short_circuits() {
    let mut srv = ServerState::new();
    let cfg = master_config();
    let mut c = conn();
    let none = run(&mut c, &mut srv, &cfg, &[b"WAIT", b"1", b"100"], 0);
    assert_eq!(one_reply_bytes(&none), b":0\r\n".to_vec());
    run(&mut c, &mut srv, &cfg, &[b"PSYNC", b"?", b"-1"], 0);
    let idle = run(&mut c, &mut srv, &cfg, &[b"WAIT", b"1", b"100"], 0);
    assert_eq!(one_reply_bytes(&idle), b":1\r\n".to_vec());
}

#[test]
fn replica_apply_getack_offsets() {
    let mut db = miniredis::store::Db::new();
    // apply a SET silently, counting its bytes
    let set = frame(&[b"SET", b"k", b"v"]);
    let used = encode(&set).len();
    let (reply, off) = miniredis::dispatch::replica_apply(&mut db, 0, &set, used, 0);
    assert!(reply.is_none());
    assert_eq!(off, used as i64);
    assert_eq!(encode(&db.get_key(&b(b"k"), 0)), b"$1\r\nv\r\n".to_vec());
    // GETACK answers with the offset before the GETACK frame itself
    let getack = frame(&[b"REPLCONF", b"GETACK", b"*"]);
    let glen = encode(&getack).len();
    let (ack, off2) = miniredis::dispatch::replica_apply(&mut db, off, &getack, glen, 0);
    let ack_bytes = encode(&ack.unwrap());
    let expected = format!("*3\r\n$8\r\nREPLCONF\r\n$3\r\nACK\r\n${}\r\n{}\r\n", off.to_string().len(), off);
    assert_eq!(ack_bytes, expected.into_bytes());
    assert_eq!(off2, off + glen as i64);
}

#[test]
fn handshake_frames_wire_shapes() {
    let port = b(b"6380");
    let f0 = miniredis::repl::handshake_frame(0, &port).unwrap();
    assert_eq!(encode(&f0), b"*1\r\n$4\r\nPING\r\n".to_vec());
    let f1 = miniredis::repl::handshake_frame(1, &port).unwrap();
    assert_eq!(
        encode(&f1),
        b"*3\r\n$8\r\nREPLCONF\r\n$14\r\nlistening-port\r\n$4\r\n6380\r\n".to_vec()
    );
    let f3 = miniredis::repl::handshake_frame(3, &port).unwrap();
    assert_eq!(encode(&f3), b"*3\r\n$5\r\nPSYNC\r\n$1\r\n?\r\n$2\r\n-1\r\n".to_vec());
    assert!(miniredis::repl::handshake_frame(4, &port).is_none());
}

#[test]
fn acl_error_replies() {
    let mut srv = ServerState::new();
    let cfg = master_config();
    let mut c = conn();
    let bad = run(&mut c, &mut srv, &cfg, &[b"ACL", b"FROB"], 0);
    assert_eq!(one_reply_bytes(&bad), b"-ERR invalid ACL command\r\n".to_vec());
    let nouser = run(&mut c, &mut srv, &cfg, &[b"ACL", b"GETUSER", b"bob"], 0);
    assert_eq!(one_reply_bytes(&nouser), b"-ERR no such user\r\n".to_vec());
    let getuser = run(&mut c, &mut srv, &cfg, &[b"ACL", b"GETUSER", b"default"], 0);
    assert_eq!(
        one_reply_bytes(&getuser),
        b"*4\r\n$5\r\nflags\r\n*1\r\n$6\r\nnopass\r\n$9\r\npasswords\r\n*0\r\n".to_vec()
    );
}

#[test]
fn replconf_answers_ok() {
    let mut srv = ServerState::new();
    let cfg = master_config();
    let mut c = conn();
    let r = run(&mut c, &mut srv, &cfg, &[b"REPLCONF", b"listening-port", b"6380"], 0);
    assert_eq!(one_reply_bytes(&r), b"+OK\r\n".to_vec());
}

#[test]
fn geoadd_validates_bounds() {
    let mut srv = ServerState::new();
    let cfg = master_config();
    let mut c = conn();
    let bad = run(&mut c, &mut srv, &cfg, &[b"GEOADD", b"places", b"2", b"91.5", b"spot"], 0);
    assert_eq!(
        one_reply_bytes(&bad),
        b"-ERR invalid longitude,latitude pair 2.000000,91.500000\r\n".to_vec()
    );
    let ok = run(&mut c, &mut srv, &cfg, &[b"GEOADD", b"places", b"2", b"48", b"spot"], 0);
    assert_eq!(ok.replies.len(), 0);
    assert!(matches!(ok.action, Some(Action::GeoAdd { .. })));
}

#[test]
fn geoadd_hands_the_frame_to_the_applier() {
    let mut srv = ServerState::new();
    let cfg = master_config();
    let mut c = conn();
    let ok = run(&mut c, &mut srv, &cfg, &[b"GEOADD", b"places", b"2", b"48", b"spot"], 0);
    assert_eq!(ok.propagated.len(), 0);
    match ok.action {
        Some(Action::GeoAdd { frame, .. }) => {
            let f = frame.expect("a master carries the frame");
            assert_eq!(
                f,
                b"*5\r\n$6\r\nGEOADD\r\n$6\r\nplaces\r\n$1\r\n2\r\n$2\r\n48\r\n$4\r\nspot\r\n"
                    .to_vec()
            );
        }
        _ => panic!("the valid pair must hand out the addition"),
    }
}

#[test]
fn exec_names_unknown_children() {
    let mut srv = ServerState::new();
    let cfg = master_config();
    let mut c = conn();
    run(&mut c, &mut srv, &cfg, &[b"MULTI"], 0);
    run(&mut c, &mut srv, &cfg, &[b"FROB", b"x"], 0);
    let exec = run(&mut c, &mut srv, &cfg, &[b"EXEC"], 0);
    assert_eq!(
        one_reply_bytes(&exec),
        b"*1\r\n-ERR unknown command 'FROB'\r\n".to_vec()
    );
}

#[test]
fn exec_propagates_mutating_children() {
    let mut srv = ServerState::new();
    let cfg = master_config();
    let mut c = conn();
    run(&mut c, &mut srv, &cfg, &[b"PSYNC", b"?", b"-1"], 0);
    let mut c2 = conn();
    c2.state = ClientState::new(2);
    run(&mut c2, &mut srv, &cfg, &[b"MULTI"], 0);
    run(&mut c2, &mut srv, &cfg, &[b"SET", b"k", b"v"], 0);
    run(&mut c2, &mut srv, &cfg, &[b"GET", b"k"], 0);
    let exec = run(&mut c2, &mut srv, &cfg, &[b"EXEC"], 0);
    assert_eq!(one_reply_bytes(&exec), b"*2\r\n+OK\r\n$1\r\nv\r\n".to_vec());
    // only the SET flowed on to the replica
    assert_eq!(exec.propagated.len(), 1);
    assert_eq!(
        exec.propagated[0],
        b"*3\r\n$3\r\nSET\r\n$1\r\nk\r\n$1\r\nv\r\n".to_vec()
    );
}

#[test]
fn psync_is_queued_inside_a_transaction() {
    let mut srv = ServerState::new();
    let cfg = master_config();
    let mut c = conn();
    run(&mut c, &mut srv, &cfg, &[b"MULTI"], 0);
    let queued = run(&mut c, &mut srv, &cfg, &[b"PSYNC", b"?", b"-1"], 0);
    assert_eq!(one_reply_bytes(&queued), b"+QUEUED\r\n".to_vec());
    assert!(queued.action.is_none());
    assert_eq!(srv.replicas.count(), 0);
}

#[test]
fn unauthenticated_psync_is_refused() {
    let mut srv = ServerState::new();
    let cfg = master_config();
    let mut c = conn();
    c.auth.authenticated = false;
    let refused = run(&mut c, &mut srv, &cfg, &[b"PSYNC", b"?", b"-1"], 0);
    assert_eq!(
        one_reply_bytes(&refused),
        b"-NOAUTH Authentication required.\r\n".to_vec()
    );
    assert!(refused.action.is_none());
    assert_eq!(srv.replicas.count(), 0);
}

#[test]
fn unknown_command_reply() {
    let mut srv = ServerState::new();
    let cfg = master_config();
    let mut c = conn();
    let r = run(&mut c, &mut srv, &cfg, &[b"NOSUCH"], 0);
    assert_eq!(one_reply_bytes(&r), b"+ERR unknown command\r\n".to_vec());
}

#[test]
fn ping_echo_info_config() {
    let mut srv = ServerState::new();
    let cfg = master_config();
    let mut c = conn();
    let ping = run(&mut c, &mut srv, &cfg, &[b"PING"], 0);
    assert_eq!(one_reply_bytes(&ping), b"+PONG\r\n".to_vec());
    let echo = run(&mut c, &mut srv, &cfg, &[b"ECHO", b"hey"], 0);
    assert_eq!(one_reply_bytes(&echo), b"$3\r\nhey\r\n".to_vec());
    let info = run(&mut c, &mut srv, &cfg, &[b"INFO", b"replication"], 0);
    let bytes = one_reply_bytes(&info);
    let text = String::from_utf8_lossy(&bytes).to_string();
    assert!(text.contains("role:master"));
    assert!(text.contains("master_repl_offset:0"));
    let dir = run(&mut c, &mut srv, &cfg, &[b"CONFIG", b"GET", b"dir"], 0);
    assert_eq!(one_reply_bytes(&dir), b"*2\r\n$3\r\ndir\r\n$1\r\n.\r\n".to_vec());
}

#[test]
fn xread_block_scenario() {
    let mut srv = ServerState::new();
    let cfg = master_config();
    let mut a = conn();
    let mut bc = conn();
    bc.state = ClientState::new(2);
    let x1 = run(&mut a, &mut srv, &cfg, &[b"XADD", b"s", b"1-1", b"f", b"v"], 0);
    assert_eq!(one_reply_bytes(&x1), b"$3\r\n1-1\r\n".to_vec());
    // a blocking XREAD from $ sees nothing yet and blocks
    let blocked = run(&mut bc, &mut srv, &cfg, &[b"XREAD", b"BLOCK", b"0", b"STREAMS", b"s", b"$"], 0);
    assert_eq!(blocked.replies.len(), 0);
    let (keys, ids) = match blocked.action {
        Some(Action::BlockXread { keys, ids, .. }) => (keys, ids),
        _ => panic!("no block"),
    };
    assert_eq!(ids, vec![(1, 1)]);
    // the writer adds 1-2; re-checking yields exactly the new entry
    let x2 = run(&mut a, &mut srv, &cfg, &[b"XADD", b"s", b"1-2", b"f", b"w"], 0);
    assert!(matches!(x2.action, Some(Action::NotifyStream)));
    let sections = srv.db.xread_collect(&keys, &ids, 0);
    let reply = RespValue::Array(sections);
    assert_eq!(
        encode(&reply),
        b"*1\r\n*2\r\n$1\r\ns\r\n*1\r\n*2\r\n$3\r\n1-2\r\n*2\r\n$1\r\nf\r\n$1\r\nw\r\n".to_vec()
    );
}

#[test]
fn queued_frames_survive_verbatim() {
    let mut srv = ServerState::new();
    let cfg = master_config();
    let mut c = conn();
    run(&mut c, &mut srv, &cfg, &[b"MULTI"], 0);
    run(&mut c, &mut srv, &cfg, &[b"SET", b"a", b"1"], 0);
    assert_eq!(c.state.queued_commands.len(), 1);
    let stored = encode(&c.state.queued_commands[0]);
    assert_eq!(stored, b"*3\r\n$3\r\nSET\r\n$1\r\na\r\n$1\r\n1\r\n".to_vec());
    // a parsed frame round-trips into the queue through the wire form
    let (v, _) = parse_msg(&stored).unwrap();
    assert_eq!(encode(&v), stored);
}
