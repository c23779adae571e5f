//! Replication bookkeeping.  On the master: the per-replica counter of
//! propagated bytes, advanced by exactly the encoded length of every
//! frame sent, and the `WAIT` decision over snapshots of those counters.
//! On the replica: the running offset over frames read, where a `GETACK`
//! is answered with the offset before counting the `GETACK` frame itself.

use vstd::prelude::*;

use crate::bytesutil::bytes_clone;
use crate::bytesutil::str_bytes;
use crate::bytesutil::u64_to_dec;
use crate::resp::RespData;
use crate::resp::RespValue;
use crate::resp::lemma_resp_seq_view;
use crate::resp::resp_seq_view;
use crate::resp::resp_view;
use crate::resp::spec_encode;
use vstd::string::StringSliceAdditionalSpecFns;

verus! {

/// The master-side replica counters: one per live replica connection, in
/// registration order.
pub struct ReplicaTracker {
    pub offsets: Vec<i64>,
}

/// Saturating advance of one counter.
pub open spec fn sat_add_i64(a: i64, len: int) -> i64 {
    if a + len > i64::MAX {
        i64::MAX
    } else {
        (a + len) as i64
    }
}

impl ReplicaTracker {
    /// No replicas yet.
    pub fn new() -> (r: ReplicaTracker)
        ensures
            r.offsets@.len() == 0,
    {
        ReplicaTracker { offsets: Vec::new() }
    }

    /// A newly promoted replica starts at offset zero.
    pub fn add_replica(&mut self)
        ensures
            final(self).offsets@ == old(self).offsets@.push(0i64),
    {
        self.offsets.push(0);
    }

    /// After a frame is propagated, every replica's counter has advanced
    /// by exactly the encoded length of the frame.
    pub fn note_propagated(&mut self, frame: &RespValue)
        ensures
            final(self).offsets@.len() == old(self).offsets@.len(),
            forall|i: int|
                0 <= i < old(self).offsets@.len() ==> final(self).offsets@[i] == sat_add_i64(
                    #[trigger] old(self).offsets@[i],
                    spec_encode(resp_view(*frame)).len() as int,
                ),
    {
        let encoded = crate::resp::encode(frame);
        let len = encoded.len();
        let ghost s0 = self.offsets@;
        let mut i: usize = 0;
        while i < self.offsets.len()
            invariant
                self.offsets@.len() == s0.len(),
                i <= s0.len(),
                len == spec_encode(resp_view(*frame)).len(),
                forall|j: int|
                    i <= j < s0.len() ==> #[trigger] self.offsets@[j] == s0[j],
                forall|j: int|
                    0 <= j < i ==> #[trigger] self.offsets@[j] == sat_add_i64(
                        s0[j],
                        len as int,
                    ),
            decreases s0.len() - i,
        {
            let cur = self.offsets[i];
            let sum: i128 = cur as i128 + len as i128;
            let next: i64 = if sum > i64::MAX as i128 {
                i64::MAX
            } else {
                sum as i64
            };
            self.offsets.set(i, next);
            i += 1;
        }
    }

    /// Advance every counter by a frame's byte length.
    pub fn advance_all(&mut self, len: usize)
        ensures
            final(self).offsets@.len() == old(self).offsets@.len(),
            forall|i: int|
                0 <= i < old(self).offsets@.len() ==> final(self).offsets@[i] == sat_add_i64(
                    #[trigger] old(self).offsets@[i],
                    len as int,
                ),
    {
        let ghost s0 = self.offsets@;
        let mut i: usize = 0;
        while i < self.offsets.len()
            invariant
                self.offsets@.len() == s0.len(),
                i <= s0.len(),
                forall|j: int| i <= j < s0.len() ==> #[trigger] self.offsets@[j] == s0[j],
                forall|j: int|
                    0 <= j < i ==> #[trigger] self.offsets@[j] == sat_add_i64(s0[j], len as int),
            decreases s0.len() - i,
        {
            let cur = self.offsets[i];
            let sum: i128 = cur as i128 + len as i128;
            let next: i64 = if sum > i64::MAX as i128 {
                i64::MAX
            } else {
                sum as i64
            };
            self.offsets.set(i, next);
            i += 1;
        }
    }

    /// How many replicas are connected.
    pub fn count(&self) -> (r: usize)
        ensures
            r == self.offsets@.len(),
    {
        self.offsets.len()
    }

    /// A snapshot of the counters, for `WAIT`.
    pub fn snapshot(&self) -> (r: Vec<i64>)
        ensures
            r@ == self.offsets@,
    {
        let mut r: Vec<i64> = Vec::new();
        let mut i: usize = 0;
        while i < self.offsets.len()
            invariant
                i <= self.offsets@.len(),
                r@ =~= self.offsets@.subrange(0, i as int),
            decreases self.offsets@.len() - i,
        {
            r.push(self.offsets[i]);
            i += 1;
        }
        proof {
            assert(r@ =~= self.offsets@);
        }
        r
    }
}

/// What `WAIT` does next: answer at once, or send `GETACK` to every
/// replica and count acknowledgements against the snapshot.
pub enum WaitPlan {
    CountNow(i64),
    Poll(Vec<i64>),
}

/// The `WAIT` decision: no replicas answers zero; replicas with no
/// pending writes answer the replica count; otherwise the counters are
/// snapshotted and every replica is polled.
pub fn wait_plan(tracker: &ReplicaTracker) -> (r: WaitPlan)
    ensures
        ({
            let offs = tracker.offsets@;
            if offs.len() == 0 {
                r matches WaitPlan::CountNow(n) && n == 0
            } else if forall|i: int| 0 <= i < offs.len() ==> #[trigger] offs[i] <= 0 {
                r matches WaitPlan::CountNow(n) && n == offs.len() as i64 as int
            } else {
                r matches WaitPlan::Poll(e) && e@ == offs
            }
        }),
{
    if tracker.offsets.len() == 0 {
        return WaitPlan::CountNow(0);
    }
    let mut pending = false;
    let mut i: usize = 0;
    while i < tracker.offsets.len()
        invariant
            i <= tracker.offsets@.len(),
            pending <==> exists|j: int| 0 <= j < i && #[trigger] tracker.offsets@[j] > 0,
        decreases tracker.offsets@.len() - i,
    {
        if tracker.offsets[i] > 0 {
            pending = true;
        }
        i += 1;
    }
    if !pending {
        WaitPlan::CountNow(#[verifier::truncate] (tracker.offsets.len() as i64))
    } else {
        WaitPlan::Poll(tracker.snapshot())
    }
}

/// How many polled replicas acknowledged an offset at or above the
/// snapshot taken for them.
pub open spec fn spec_ack_count(expected: Seq<i64>, acks: Seq<Option<i64>>) -> int
    decreases expected.len(),
{
    if expected.len() == 0 || acks.len() == 0 {
        0
    } else {
        let head: int = match acks[0] {
            Some(o) => if o >= expected[0] {
                1
            } else {
                0
            },
            None => 0,
        };
        head + spec_ack_count(
            expected.subrange(1, expected.len() as int),
            acks.subrange(1, acks.len() as int),
        )
    }
}

/// Count the acknowledgements that reached their snapshot offset.
pub fn count_acks(expected: &Vec<i64>, acks: &Vec<Option<i64>>) -> (r: i64)
    requires
        expected@.len() == acks@.len(),
        expected@.len() <= 0x7fff_ffff_ffff_ffff,
    ensures
        r == spec_ack_count(expected@, acks@),
{
    let ghost full = spec_ack_count(expected@, acks@);
    let mut cnt: usize = 0;
    let mut i: usize = 0;
    proof {
        assert(expected@.subrange(0, expected@.len() as int) =~= expected@);
        assert(acks@.subrange(0, acks@.len() as int) =~= acks@);
        lemma_ack_count_bound(expected@, acks@);
    }
    while i < expected.len()
        invariant
            expected@.len() == acks@.len(),
            i <= expected@.len(),
            cnt <= i,
            full == spec_ack_count(expected@, acks@),
            full == cnt + spec_ack_count(
                expected@.subrange(i as int, expected@.len() as int),
                acks@.subrange(i as int, acks@.len() as int),
            ),
        decreases expected@.len() - i,
    {
        let ghost erem = expected@.subrange(i as int, expected@.len() as int);
        let ghost arem = acks@.subrange(i as int, acks@.len() as int);
        proof {
            assert(erem[0] == expected@[i as int]);
            assert(arem[0] == acks@[i as int]);
            assert(erem.subrange(1, erem.len() as int) =~= expected@.subrange(
                i as int + 1,
                expected@.len() as int,
            ));
            assert(arem.subrange(1, arem.len() as int) =~= acks@.subrange(
                i as int + 1,
                acks@.len() as int,
            ));
        }
        match acks[i] {
            Some(o) => {
                if o >= expected[i] {
                    cnt += 1;
                }
            },
            None => {},
        }
        i += 1;
    }
    proof {
        assert(expected@.subrange(expected@.len() as int, expected@.len() as int) =~= Seq::<
            i64,
        >::empty());
        lemma_ack_count_bound(expected@, acks@);
    }
    #[verifier::truncate]
    (cnt as i64)
}

/// The acknowledgement count never exceeds the replica count.
pub proof fn lemma_ack_count_bound(expected: Seq<i64>, acks: Seq<Option<i64>>)
    ensures
        0 <= spec_ack_count(expected, acks) <= expected.len(),
    decreases expected.len(),
{
    if expected.len() > 0 && acks.len() > 0 {
        lemma_ack_count_bound(
            expected.subrange(1, expected.len() as int),
            acks.subrange(1, acks.len() as int),
        );
    }
}

/// The upstream master a replica connects to: its host name and its
/// port, which defaults to 6379 when the flag's port does not parse.
pub struct ReplicaConfig {
    pub host: Vec<u8>,
    pub port: u16,
}

impl ReplicaConfig {
    /// Build the target from the two halves of the `replicaof` flag.
    pub fn new(host: Vec<u8>, port: &Vec<u8>) -> (r: ReplicaConfig)
        ensures
            r.host@ == host@,
            r.port == (if crate::bytesutil::valid_i64_bytes(port@) && 0
                <= crate::bytesutil::i64_val(port@) <= 65535 {
                crate::bytesutil::i64_val(port@) as u16
            } else {
                6379u16
            }),
    {
        let p: u16 = match crate::bytesutil::parse_i64(port) {
            Some(v) => if 0 <= v && v <= 65535 {
                v as u16
            } else {
                6379
            },
            None => 6379,
        };
        ReplicaConfig { host, port: p }
    }
}

/// The four handshake commands a replica sends, in order: `PING`,
/// `REPLCONF listening-port <port>`, `REPLCONF capa psync2`,
/// `PSYNC ? -1`.
pub fn handshake_frame(step: usize, port: &Vec<u8>) -> (r: Option<RespValue>)
    ensures
        step == 0 ==> (r matches Some(v) && resp_view(v) == RespData::Array(
            seq![RespData::BulkString("PING".spec_bytes())],
        )),
        step == 1 ==> (r matches Some(v) && resp_view(v) == RespData::Array(
            seq![
                RespData::BulkString("REPLCONF".spec_bytes()),
                RespData::BulkString("listening-port".spec_bytes()),
                RespData::BulkString(port@),
            ],
        )),
        step == 2 ==> (r matches Some(v) && resp_view(v) == RespData::Array(
            seq![
                RespData::BulkString("REPLCONF".spec_bytes()),
                RespData::BulkString("capa".spec_bytes()),
                RespData::BulkString("psync2".spec_bytes()),
            ],
        )),
        step == 3 ==> (r matches Some(v) && resp_view(v) == RespData::Array(
            seq![
                RespData::BulkString("PSYNC".spec_bytes()),
                RespData::BulkString("?".spec_bytes()),
                RespData::BulkString("-1".spec_bytes()),
            ],
        )),
        step > 3 ==> r is None,
{
    if step == 0 {
        let mut items: Vec<RespValue> = Vec::new();
        items.push(RespValue::BulkString(str_bytes("PING")));
        proof {
            lemma_resp_seq_view(items@);
            assert(resp_seq_view(items@) =~= seq![RespData::BulkString("PING".spec_bytes())]);
        }
        Some(RespValue::Array(items))
    } else if step == 1 {
        let mut items: Vec<RespValue> = Vec::new();
        items.push(RespValue::BulkString(str_bytes("REPLCONF")));
        items.push(RespValue::BulkString(str_bytes("listening-port")));
        items.push(RespValue::BulkString(bytes_clone(port)));
        proof {
            lemma_resp_seq_view(items@);
            assert(items@.len() == 3);
            assert(resp_view(items@[0]) == RespData::BulkString("REPLCONF".spec_bytes()));
            assert(resp_view(items@[1]) == RespData::BulkString("listening-port".spec_bytes()));
            assert(resp_view(items@[2]) == RespData::BulkString(port@));
            assert(resp_seq_view(items@) =~= seq![
                RespData::BulkString("REPLCONF".spec_bytes()),
                RespData::BulkString("listening-port".spec_bytes()),
                RespData::BulkString(port@),
            ]);
        }
        Some(RespValue::Array(items))
    } else if step == 2 {
        let mut items: Vec<RespValue> = Vec::new();
        items.push(RespValue::BulkString(str_bytes("REPLCONF")));
        items.push(RespValue::BulkString(str_bytes("capa")));
        items.push(RespValue::BulkString(str_bytes("psync2")));
        proof {
            lemma_resp_seq_view(items@);
            assert(items@.len() == 3);
            assert(resp_view(items@[0]) == RespData::BulkString("REPLCONF".spec_bytes()));
            assert(resp_view(items@[1]) == RespData::BulkString("capa".spec_bytes()));
            assert(resp_view(items@[2]) == RespData::BulkString("psync2".spec_bytes()));
            assert(resp_seq_view(items@) =~= seq![
                RespData::BulkString("REPLCONF".spec_bytes()),
                RespData::BulkString("capa".spec_bytes()),
                RespData::BulkString("psync2".spec_bytes()),
            ]);
        }
        Some(RespValue::Array(items))
    } else if step == 3 {
        let mut items: Vec<RespValue> = Vec::new();
        items.push(RespValue::BulkString(str_bytes("PSYNC")));
        items.push(RespValue::BulkString(str_bytes("?")));
        items.push(RespValue::BulkString(str_bytes("-1")));
        proof {
            lemma_resp_seq_view(items@);
            assert(items@.len() == 3);
            assert(resp_view(items@[0]) == RespData::BulkString("PSYNC".spec_bytes()));
            assert(resp_view(items@[1]) == RespData::BulkString("?".spec_bytes()));
            assert(resp_view(items@[2]) == RespData::BulkString("-1".spec_bytes()));
            assert(resp_seq_view(items@) =~= seq![
                RespData::BulkString("PSYNC".spec_bytes()),
                RespData::BulkString("?".spec_bytes()),
                RespData::BulkString("-1".spec_bytes()),
            ]);
        }
        Some(RespValue::Array(items))
    } else {
        None
    }
}

/// The `REPLCONF GETACK *` frame the master sends when polling.
pub fn getack_frame() -> (r: RespValue)
    ensures
        resp_view(r) == RespData::Array(
            seq![
                RespData::BulkString("REPLCONF".spec_bytes()),
                RespData::BulkString("GETACK".spec_bytes()),
                RespData::BulkString("*".spec_bytes()),
            ],
        ),
{
    let mut items: Vec<RespValue> = Vec::new();
    items.push(RespValue::BulkString(str_bytes("REPLCONF")));
    items.push(RespValue::BulkString(str_bytes("GETACK")));
    items.push(RespValue::BulkString(str_bytes("*")));
    proof {
        lemma_resp_seq_view(items@);
        assert(items@.len() == 3);
        assert(resp_view(items@[0]) == RespData::BulkString("REPLCONF".spec_bytes()));
        assert(resp_view(items@[1]) == RespData::BulkString("GETACK".spec_bytes()));
        assert(resp_view(items@[2]) == RespData::BulkString("*".spec_bytes()));
        assert(resp_seq_view(items@) =~= seq![
            RespData::BulkString("REPLCONF".spec_bytes()),
            RespData::BulkString("GETACK".spec_bytes()),
            RespData::BulkString("*".spec_bytes()),
        ]);
    }
    RespValue::Array(items)
}

/// The `REPLCONF ACK <offset>` frame a replica answers with.
pub fn ack_frame(offset: i64) -> (r: RespValue)
    ensures
        resp_view(r) == RespData::Array(
            seq![
                RespData::BulkString("REPLCONF".spec_bytes()),
                RespData::BulkString("ACK".spec_bytes()),
                RespData::BulkString(crate::bytesutil::spec_i64_digits(offset as int)),
            ],
        ),
{
    let mut items: Vec<RespValue> = Vec::new();
    items.push(RespValue::BulkString(str_bytes("REPLCONF")));
    items.push(RespValue::BulkString(str_bytes("ACK")));
    items.push(RespValue::BulkString(crate::bytesutil::i64_to_dec(offset)));
    proof {
        lemma_resp_seq_view(items@);
        assert(items@.len() == 3);
        assert(resp_view(items@[0]) == RespData::BulkString("REPLCONF".spec_bytes()));
        assert(resp_view(items@[1]) == RespData::BulkString("ACK".spec_bytes()));
        assert(resp_view(items@[2]) == RespData::BulkString(crate::bytesutil::spec_i64_digits(offset as int)));
        assert(resp_seq_view(items@) =~= seq![
            RespData::BulkString("REPLCONF".spec_bytes()),
            RespData::BulkString("ACK".spec_bytes()),
            RespData::BulkString(crate::bytesutil::spec_i64_digits(offset as int)),
        ]);
    }
    RespValue::Array(items)
}

/// The `+FULLRESYNC <replid> 0` line a master answers `PSYNC` with.
pub fn fullresync_reply(replid: &Vec<u8>) -> (r: RespValue)
    ensures
        resp_view(r) == RespData::SimpleString(
            "FULLRESYNC ".spec_bytes() + replid@ + " 0".spec_bytes(),
        ),
{
    let mut line = str_bytes("FULLRESYNC ");
    let mut id = bytes_clone(replid);
    line.append(&mut id);
    let mut tail = str_bytes(" 0");
    line.append(&mut tail);
    proof {
        assert(line@ =~= "FULLRESYNC ".spec_bytes() + replid@ + " 0".spec_bytes());
    }
    RespValue::SimpleString(line)
}

/// Parse the `$<len>\r\n` header that fronts the snapshot image a
/// master sends after `FULLRESYNC`: the image length and the header's
/// own byte count.
pub fn parse_rdb_header(buf: &Vec<u8>) -> (r: Option<(u64, usize)>)
    ensures
        ({
            let s = buf@;
            let good = s.len() > 0 && s[0] == 36 && (crate::resp::spec_find_crlf(s) matches Some(
                i,
            ) && i >= 2 && crate::bytesutil::all_digits(s.subrange(1, i as int))
                && crate::bytesutil::dec_val(s.subrange(1, i as int)) <= u64::MAX);
            &&& (r is Some <==> good)
            &&& (r matches Some(p) ==> (crate::resp::spec_find_crlf(s) matches Some(i) && p.1
                == i + 2 && p.0 as nat == crate::bytesutil::dec_val(s.subrange(1, i as int))))
        }),
{
    let blen = buf.len();
    match crate::resp::find_crlf(buf.as_slice()) {
        None => None,
        Some(i) => {
            proof {
                assert(i + 1 < blen);
            }
            if i == 0 || buf[0] != 36 {
                return None;
            }
            let mut digits: Vec<u8> = Vec::new();
            let mut j: usize = 1;
            while j < i
                invariant
                    1 <= j <= i < buf@.len(),
                    digits@ =~= buf@.subrange(1, j as int),
                decreases i - j,
            {
                digits.push(buf[j]);
                j += 1;
            }
            match crate::bytesutil::parse_u64(&digits) {
                Some(len) => Some((len, i + 2)),
                None => None,
            }
        },
    }
}

/// The raw bytes that follow the `FULLRESYNC` line: `$<len>\r\n` and the
/// snapshot image, with no closing CRLF — the receiver must length-read.
pub fn fullresync_payload() -> (r: Vec<u8>)
    ensures
        ({
            let header = seq![36u8] + crate::bytesutil::spec_u64_digits(88) + seq![13u8, 10u8];
            r@.len() == header.len() + 88 && r@.subrange(0, header.len() as int) == header
        }),
{
    let body = crate::trusted::empty_rdb_payload();
    let mut out: Vec<u8> = Vec::new();
    out.push(36);
    let mut digits = u64_to_dec(body.len() as u64);
    out.append(&mut digits);
    out.push(13);
    out.push(10);
    let ghost header = out@;
    let mut b = body;
    out.append(&mut b);
    proof {
        assert(header =~= seq![36u8] + crate::bytesutil::spec_u64_digits(88) + seq![13u8, 10u8]);
        assert(out@.subrange(0, header.len() as int) =~= header);
    }
    out
}

/// A random 40-character alphanumeric replication id.
pub fn gen_replication_id() -> (r: Vec<u8>)
    ensures
        r@.len() == 40,
        forall|i: int| 0 <= i < r@.len() ==> crate::trusted::is_alnum(#[trigger] r@[i]),
{
    let mut r: Vec<u8> = Vec::new();
    let mut i: usize = 0;
    while i < 40
        invariant
            i <= 40,
            r@.len() == i,
            forall|j: int| 0 <= j < i ==> crate::trusted::is_alnum(#[trigger] r@[j]),
        decreases 40 - i,
    {
        r.push(crate::trusted::random_alnum());
        i += 1;
    }
    r
}

/// The replica-side offset step: a frame of `used` bytes was read; the
/// new offset counts it, saturating at the top.
pub open spec fn spec_offset_after(offset: i64, used: nat) -> i64 {
    sat_add_i64(offset, used as int)
}

/// Advance the replica offset by the byte length of one frame.
pub fn offset_after(offset: i64, used: usize) -> (r: i64)
    ensures
        r == spec_offset_after(offset, used as nat),
{
    let sum: i128 = offset as i128 + used as i128;
    if sum > i64::MAX as i128 {
        i64::MAX
    } else {
        sum as i64
    }
}

} // verus!
