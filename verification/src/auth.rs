//! Users, per-connection authentication state, and the `AUTH` and `ACL`
//! commands.  A connection starts authenticated as `default` exactly
//! when `default` has no password.

use vstd::prelude::*;

use crate::bytesutil::bytes_clone;
use crate::bytesutil::bytes_eq;
use crate::bytesutil::str_bytes;
use crate::replies::reply_ok;
use crate::replies::reply_wrongpass;
use crate::resp::RespData;
use crate::resp::RespValue;
use crate::resp::lemma_resp_seq_view;
use crate::resp::resp_seq_view;
use crate::resp::resp_view;
use crate::trusted::hex_lower;
use crate::trusted::sha256;
use crate::trusted::sha256_of;
use crate::trusted::spec_hex_lower;
use vstd::string::StringSliceAdditionalSpecFns;

verus! {

/// The shared user map: user name to optional password.
pub struct Users {
    pub users: Vec<(Vec<u8>, Option<Vec<u8>>)>,
}

/// Per-connection authentication state.
pub struct AuthState {
    pub authenticated: bool,
    pub username: Vec<u8>,
}

/// First-match lookup of a user's password entry, as views.
pub open spec fn users_get(s: Seq<(Vec<u8>, Option<Vec<u8>>)>, u: Seq<u8>) -> Option<
    Option<Seq<u8>>,
>
    decreases s.len(),
{
    if s.len() == 0 {
        None
    } else if s[0].0@ == u {
        Some(
            match s[0].1 {
                Some(p) => Some(p@),
                None => None,
            },
        )
    } else {
        users_get(s.subrange(1, s.len() as int), u)
    }
}

/// No two entries share a user name.
pub open spec fn users_unique(s: Seq<(Vec<u8>, Option<Vec<u8>>)>) -> bool {
    forall|i: int, j: int|
        0 <= i < j < s.len() ==> (#[trigger] s[i]).0@ != (#[trigger] s[j]).0@
}

/// With unique users, the lookup finds the entry at any index that
/// carries the name.
pub proof fn lemma_users_get_char(s: Seq<(Vec<u8>, Option<Vec<u8>>)>, u: Seq<u8>)
    requires
        users_unique(s),
    ensures
        (users_get(s, u) is Some <==> exists|i: int|
            0 <= i < s.len() && (#[trigger] s[i]).0@ == u),
        forall|i: int|
            0 <= i < s.len() && (#[trigger] s[i]).0@ == u ==> users_get(s, u) == Some(
                match s[i].1 {
                    Some(p) => Some(p@),
                    None => None,
                },
            ),
    decreases s.len(),
{
    if s.len() > 0 {
        let rest = s.subrange(1, s.len() as int);
        assert forall|i: int, j: int| 0 <= i < j < rest.len() implies (#[trigger] rest[i]).0@
            != (#[trigger] rest[j]).0@ by {
            assert(rest[i] == s[i + 1] && rest[j] == s[j + 1]);
        }
        lemma_users_get_char(rest, u);
        if s[0].0@ == u {
            assert forall|i: int|
                0 <= i < s.len() && (#[trigger] s[i]).0@ == u implies users_get(s, u) == Some(
                match s[i].1 {
                    Some(p) => Some(p@),
                    None => None,
                },
            ) by {
                if i > 0 {
                    assert(s[0].0@ != s[i].0@);
                }
            }
        } else {
            if users_get(s, u) is Some {
                let i = choose|i: int| 0 <= i < rest.len() && (#[trigger] rest[i]).0@ == u;
                assert(s[i + 1] == rest[i]);
            }
            if exists|i: int| 0 <= i < s.len() && (#[trigger] s[i]).0@ == u {
                let i = choose|i: int| 0 <= i < s.len() && (#[trigger] s[i]).0@ == u;
                assert(i > 0);
                assert(rest[i - 1] == s[i]);
            }
            assert forall|i: int|
                0 <= i < s.len() && (#[trigger] s[i]).0@ == u implies users_get(s, u) == Some(
                match s[i].1 {
                    Some(p) => Some(p@),
                    None => None,
                },
            ) by {
                assert(i > 0);
                assert(rest[i - 1] == s[i]);
            }
        }
    }
}

impl Users {
    /// The user map invariant: names unique.
    pub open spec fn wf(self) -> bool {
        users_unique(self.users@)
    }

    /// The boot-time user map: `default` with no password.
    pub fn new_default() -> (r: Users)
        ensures
            r.wf(),
            users_get(r.users@, "default".spec_bytes()) == Some(Option::<Seq<u8>>::None),
    {
        let mut users: Vec<(Vec<u8>, Option<Vec<u8>>)> = Vec::new();
        users.push((str_bytes("default"), None));
        let r = Users { users };
        proof {
            assert(r.users@[0].0@ == "default".spec_bytes());
        }
        r
    }

    /// Index of a user, if present.
    fn user_index(&self, u: &Vec<u8>) -> (r: Option<usize>)
        ensures
            match r {
                Some(i) => i < self.users@.len() && self.users@[i as int].0@ == u@,
                None => forall|j: int|
                    0 <= j < self.users@.len() ==> (#[trigger] self.users@[j]).0@ != u@,
            },
    {
        let mut i: usize = 0;
        while i < self.users.len()
            invariant
                i <= self.users@.len(),
                forall|j: int| 0 <= j < i ==> (#[trigger] self.users@[j]).0@ != u@,
            decreases self.users@.len() - i,
        {
            if bytes_eq(&self.users[i].0, u) {
                return Some(i);
            }
            i += 1;
        }
        None
    }

    /// The password entry of a user, as a copy.
    pub fn lookup(&self, u: &Vec<u8>) -> (r: Option<Option<Vec<u8>>>)
        requires
            self.wf(),
        ensures
            match r {
                None => users_get(self.users@, u@) is None,
                Some(p) => users_get(self.users@, u@) == Some(
                    match p {
                        Some(pw) => Some(pw@),
                        None => None,
                    },
                ),
            },
    {
        match self.user_index(u) {
            None => {
                proof {
                    lemma_users_get_char(self.users@, u@);
                }
                None
            },
            Some(i) => {
                proof {
                    lemma_users_get_char(self.users@, u@);
                }
                match &self.users[i].1 {
                    Some(pw) => Some(Some(bytes_clone(pw))),
                    None => Some(None),
                }
            },
        }
    }

    /// Bind a user to a password, replacing any previous entry.
    pub fn set_user(&mut self, u: &Vec<u8>, password: Option<Vec<u8>>)
        requires
            old(self).wf(),
        ensures
            final(self).wf(),
            users_get(final(self).users@, u@) == Some(
                match password {
                    Some(p) => Some(p@),
                    None => Option::<Seq<u8>>::None,
                },
            ),
            forall|u2: Seq<u8>|
                u2 != u@ ==> #[trigger] users_get(final(self).users@, u2) == users_get(
                    old(self).users@,
                    u2,
                ),
    {
        let ghost s = self.users@;
        match self.user_index(u) {
            Some(i) => {
                self.users.set(i, (bytes_clone(u), password));
                proof {
                    let t = self.users@;
                    assert forall|a: int, b: int| 0 <= a < b < t.len() implies (#[trigger] t[a]).0@
                        != (#[trigger] t[b]).0@ by {
                        assert(t[a].0@ == s[a].0@ && t[b].0@ == s[b].0@);
                    }
                    lemma_users_get_char(t, u@);
                    assert(t[i as int].0@ == u@);
                    assert forall|u2: Seq<u8>| u2 != u@ implies #[trigger] users_get(t, u2)
                        == users_get(s, u2) by {
                        lemma_users_get_char(s, u2);
                        lemma_users_get_char(t, u2);
                        if users_get(s, u2) is Some {
                            let x = choose|x: int| 0 <= x < s.len() && (#[trigger] s[x]).0@ == u2;
                            assert(x != i);
                            assert(t[x] == s[x]);
                        } else {
                            if users_get(t, u2) is Some {
                                let x = choose|x: int|
                                    0 <= x < t.len() && (#[trigger] t[x]).0@ == u2;
                                assert(x != i);
                                assert(t[x] == s[x]);
                                assert(false);
                            }
                        }
                    }
                }
            },
            None => {
                self.users.push((bytes_clone(u), password));
                proof {
                    let t = self.users@;
                    assert(t[s.len() as int].0@ == u@);
                    assert forall|a: int, b: int| 0 <= a < b < t.len() implies (#[trigger] t[a]).0@
                        != (#[trigger] t[b]).0@ by {
                        if b < s.len() {
                            assert(t[a] == s[a] && t[b] == s[b]);
                        } else {
                            assert(t[a] == s[a]);
                        }
                    }
                    lemma_users_get_char(t, u@);
                    assert forall|u2: Seq<u8>| u2 != u@ implies #[trigger] users_get(t, u2)
                        == users_get(s, u2) by {
                        lemma_users_get_char(s, u2);
                        lemma_users_get_char(t, u2);
                        if users_get(s, u2) is Some {
                            let x = choose|x: int| 0 <= x < s.len() && (#[trigger] s[x]).0@ == u2;
                            assert(t[x] == s[x]);
                        } else {
                            if users_get(t, u2) is Some {
                                let x = choose|x: int|
                                    0 <= x < t.len() && (#[trigger] t[x]).0@ == u2;
                                assert(x < s.len() ==> t[x] == s[x]);
                                assert(false);
                            }
                        }
                    }
                }
            },
        }
    }
}

/// `AUTH`: succeed exactly when the named user has this password.
pub fn handle_auth(
    users: &Users,
    auth: &mut AuthState,
    username: &Vec<u8>,
    password: &Vec<u8>,
) -> (r: RespValue)
    requires
        users.wf(),
    ensures
        ({
            let ok = users_get(users.users@, username@) matches Some(p) && (p matches Some(expected)
                && expected == password@);
            if ok {
                &&& resp_view(r) == RespData::SimpleString(crate::replies::ok_msg())
                &&& final(auth).authenticated == true
                &&& final(auth).username@ == username@
            } else {
                &&& resp_view(r) == RespData::SimpleError(crate::replies::wrongpass_msg())
                &&& *final(auth) == *old(auth)
            }
        }),
{
    match users.lookup(username) {
        Some(Some(expected)) => {
            if bytes_eq(&expected, password) {
                auth.authenticated = true;
                auth.username = bytes_clone(username);
                reply_ok()
            } else {
                reply_wrongpass()
            }
        },
        _ => reply_wrongpass(),
    }
}

/// The ACL reply for a password-less `default` user.
pub open spec fn acl_nopass_reply() -> RespData {
    RespData::Array(
        seq![
            RespData::BulkString("flags".spec_bytes()),
            RespData::Array(seq![RespData::BulkString("nopass".spec_bytes())]),
            RespData::BulkString("passwords".spec_bytes()),
            RespData::Array(Seq::empty()),
        ],
    )
}

/// The ACL reply for a `default` user holding a password: the SHA-256
/// digest of the password, in lowercase hex.
pub open spec fn acl_pass_reply(pw: Seq<u8>) -> RespData {
    RespData::Array(
        seq![
            RespData::BulkString("flags".spec_bytes()),
            RespData::Array(Seq::empty()),
            RespData::BulkString("passwords".spec_bytes()),
            RespData::Array(seq![RespData::BulkString(spec_hex_lower(sha256_of(pw)))]),
        ],
    )
}

/// `ACL GETUSER default`: the user's flags and password digests.
pub fn acl_getuser_default(users: &Users) -> (r: RespValue)
    requires
        users.wf(),
    ensures
        match users_get(users.users@, "default".spec_bytes()) {
            Some(p) => match p {
                None => resp_view(r) == acl_nopass_reply(),
                Some(pw) => resp_view(r) == acl_pass_reply(pw),
            },
            None => resp_view(r) == acl_nopass_reply(),
        },
{
    let name = str_bytes("default");
    let entry = users.lookup(&name);
    match entry {
        Some(Some(pw)) => {
            let digest = sha256(&pw);
            let hexed = hex_lower(&digest);
            let mut passwords: Vec<RespValue> = Vec::new();
            passwords.push(RespValue::BulkString(hexed));
            proof {
                lemma_resp_seq_view(passwords@);
                assert(resp_seq_view(passwords@) =~= seq![
                    RespData::BulkString(spec_hex_lower(sha256_of(pw@))),
                ]);
            }
            let mut items: Vec<RespValue> = Vec::new();
            items.push(RespValue::BulkString(str_bytes("flags")));
            items.push(RespValue::Array(Vec::new()));
            items.push(RespValue::BulkString(str_bytes("passwords")));
            items.push(RespValue::Array(passwords));
            proof {
                lemma_resp_seq_view(items@);
                assert(items@.len() == 4);
                assert(resp_view(items@[0]) == RespData::BulkString("flags".spec_bytes()));
                assert(resp_view(items@[1]) == RespData::Array(
                    crate::resp::resp_seq_view(Seq::<RespValue>::empty()),
                ));
                assert(crate::resp::resp_seq_view(Seq::<RespValue>::empty()) =~= Seq::<
                    RespData,
                >::empty());
                assert(resp_view(items@[2]) == RespData::BulkString("passwords".spec_bytes()));
                assert(resp_view(items@[3]) == RespData::Array(resp_seq_view(passwords@)));
                assert(resp_seq_view(items@) =~= seq![
                    RespData::BulkString("flags".spec_bytes()),
                    RespData::Array(Seq::empty()),
                    RespData::BulkString("passwords".spec_bytes()),
                    RespData::Array(seq![RespData::BulkString(spec_hex_lower(sha256_of(pw@)))]),
                ]);
            }
            RespValue::Array(items)
        },
        _ => {
            let mut flags: Vec<RespValue> = Vec::new();
            flags.push(RespValue::BulkString(str_bytes("nopass")));
            proof {
                lemma_resp_seq_view(flags@);
                assert(resp_seq_view(flags@) =~= seq![
                    RespData::BulkString("nopass".spec_bytes()),
                ]);
            }
            let mut items: Vec<RespValue> = Vec::new();
            items.push(RespValue::BulkString(str_bytes("flags")));
            items.push(RespValue::Array(flags));
            items.push(RespValue::BulkString(str_bytes("passwords")));
            items.push(RespValue::Array(Vec::new()));
            proof {
                lemma_resp_seq_view(items@);
                assert(items@.len() == 4);
                assert(resp_view(items@[0]) == RespData::BulkString("flags".spec_bytes()));
                assert(resp_view(items@[1]) == RespData::Array(resp_seq_view(flags@)));
                assert(resp_view(items@[2]) == RespData::BulkString("passwords".spec_bytes()));
                assert(resp_view(items@[3]) == RespData::Array(
                    crate::resp::resp_seq_view(Seq::<RespValue>::empty()),
                ));
                assert(crate::resp::resp_seq_view(Seq::<RespValue>::empty()) =~= Seq::<
                    RespData,
                >::empty());
                assert(resp_seq_view(items@) =~= seq![
                    RespData::BulkString("flags".spec_bytes()),
                    RespData::Array(seq![RespData::BulkString("nopass".spec_bytes())]),
                    RespData::BulkString("passwords".spec_bytes()),
                    RespData::Array(Seq::empty()),
                ]);
            }
            RespValue::Array(items)
        },
    }
}

} // verus!
