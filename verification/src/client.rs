//! The per-connection session: the decisions of the framed front end.
//!
//! The host reads frames off the socket, parses them into [`Request`]
//! values, and writes the returned [`Response`] back; the session decides
//! what each request means. The first request of a connection must
//! authenticate it; afterwards the session dispatches to the broker and
//! keeps the connection's in-flight tracker.

use vstd::prelude::*;
use vstd::string::StrSliceExecFns;

use crate::authentication::Authentication;
use crate::models::Priority;
use crate::queue_server::{entry_ids, QueueServer};

verus! {

// ---------------------------------------------------------------------------
// Identifier strings
// ---------------------------------------------------------------------------

pub open spec fn is_hex_digit(c: char) -> bool {
    ||| (48 <= c as u32 <= 57)
    ||| (97 <= c as u32 <= 102)
    ||| (65 <= c as u32 <= 70)
}

pub open spec fn hex_digit_val(c: char) -> int {
    let v = c as u32;
    if 48 <= v <= 57 {
        v - 48
    } else if 97 <= v <= 102 {
        v - 87
    } else {
        v - 55
    }
}

/// The number a string of hex digits denotes.
pub open spec fn hex_value(s: Seq<char>) -> int
    decreases s.len(),
{
    if s.len() == 0 {
        0
    } else {
        hex_value(s.drop_last()) * 16 + hex_digit_val(s.last())
    }
}

/// The 32 digits of a hyphenated identifier string.
pub open spec fn uuid_digits(s: Seq<char>) -> Seq<char> {
    s.subrange(0, 8) + s.subrange(9, 13) + s.subrange(14, 18) + s.subrange(19, 23) + s.subrange(
        24,
        36,
    )
}

/// The canonical 8-4-4-4-12 form: 36 characters, hyphens at the four fixed
/// positions, hex digits everywhere else.
pub open spec fn valid_uuid_str(s: Seq<char>) -> bool {
    &&& s.len() == 36
    &&& s[8] == '-' && s[13] == '-' && s[18] == '-' && s[23] == '-'
    &&& forall|k: int| 0 <= k < 32 ==> is_hex_digit(#[trigger] uuid_digits(s)[k])
}

pub open spec fn uuid_value(s: Seq<char>) -> int {
    hex_value(uuid_digits(s))
}

spec fn pow16(k: nat) -> int
    decreases k,
{
    if k == 0 {
        1
    } else {
        16 * pow16((k - 1) as nat)
    }
}

proof fn lemma_pow16_pos(a: nat)
    ensures
        pow16(a) >= 1,
    decreases a,
{
    if a != 0 {
        lemma_pow16_pos((a - 1) as nat);
    }
}

proof fn lemma_pow16_mono(a: nat, b: nat)
    requires
        a <= b,
    ensures
        pow16(a) <= pow16(b),
        pow16(a) >= 1,
    decreases b,
{
    lemma_pow16_pos(a);
    if a < b {
        lemma_pow16_mono(a, (b - 1) as nat);
    }
}

proof fn lemma_pow16_32()
    ensures
        pow16(32) == 0x1_0000_0000_0000_0000_0000_0000_0000_0000,
{
    reveal_with_fuel(pow16, 33);
}

fn hex_val_of(c: char) -> (r: Option<u8>)
    ensures
        match r {
            Some(v) => is_hex_digit(c) && v == hex_digit_val(c),
            None => !is_hex_digit(c),
        },
{
    let u = c as u32;
    if 48 <= u && u <= 57 {
        Some((u - 48) as u8)
    } else if 97 <= u && u <= 102 {
        Some((u - 87) as u8)
    } else if 65 <= u && u <= 70 {
        Some((u - 55) as u8)
    } else {
        None
    }
}

/// Parses a hyphenated identifier string; anything but the canonical form
/// is refused.
#[verifier::loop_isolation(false)]
pub fn parse_uuid(s: &str) -> (r: Option<u128>)
    ensures
        match r {
            Some(v) => valid_uuid_str(s@) && v == uuid_value(s@),
            None => !valid_uuid_str(s@),
        },
{
    if s.unicode_len() != 36 {
        return None;
    }
    if !(s.get_char(8) == '-' && s.get_char(13) == '-' && s.get_char(18) == '-' && s.get_char(23)
        == '-') {
        return None;
    }
    let mut digits: Vec<char> = Vec::new();
    let mut k: usize = 0;
    while k < 36
        invariant
            k <= 36,
            k <= 8 ==> digits@ == s@.subrange(0, k as int),
            8 < k <= 13 ==> k >= 9 && digits@ == s@.subrange(0, 8) + s@.subrange(9, k as int),
            13 < k <= 18 ==> k >= 14 && digits@ == s@.subrange(0, 8) + s@.subrange(9, 13)
                + s@.subrange(14, k as int),
            18 < k <= 23 ==> k >= 19 && digits@ == s@.subrange(0, 8) + s@.subrange(9, 13)
                + s@.subrange(14, 18) + s@.subrange(19, k as int),
            23 < k ==> k >= 24 && digits@ == s@.subrange(0, 8) + s@.subrange(9, 13) + s@.subrange(
                14,
                18,
            ) + s@.subrange(19, 23) + s@.subrange(24, k as int),
        decreases 36 - k,
    {
        if !(k == 8 || k == 13 || k == 18 || k == 23) {
            digits.push(s.get_char(k));
            proof {
                if k < 8 {
                    assert(digits@ =~= s@.subrange(0, k + 1));
                } else if k < 13 {
                    assert(digits@ =~= s@.subrange(0, 8) + s@.subrange(9, k + 1));
                } else if k < 18 {
                    assert(digits@ =~= s@.subrange(0, 8) + s@.subrange(9, 13) + s@.subrange(
                        14,
                        k + 1,
                    ));
                } else if k < 23 {
                    assert(digits@ =~= s@.subrange(0, 8) + s@.subrange(9, 13) + s@.subrange(
                        14,
                        18,
                    ) + s@.subrange(19, k + 1));
                } else {
                    assert(digits@ =~= s@.subrange(0, 8) + s@.subrange(9, 13) + s@.subrange(
                        14,
                        18,
                    ) + s@.subrange(19, 23) + s@.subrange(24, k + 1));
                }
            }
        } else {
            proof {
                if k == 8 {
                    assert(digits@ =~= s@.subrange(0, 8) + s@.subrange(9, 9));
                } else if k == 13 {
                    assert(digits@ =~= s@.subrange(0, 8) + s@.subrange(9, 13) + s@.subrange(
                        14,
                        14,
                    ));
                } else if k == 18 {
                    assert(digits@ =~= s@.subrange(0, 8) + s@.subrange(9, 13) + s@.subrange(
                        14,
                        18,
                    ) + s@.subrange(19, 19));
                } else {
                    assert(digits@ =~= s@.subrange(0, 8) + s@.subrange(9, 13) + s@.subrange(
                        14,
                        18,
                    ) + s@.subrange(19, 23) + s@.subrange(24, 24));
                }
            }
        }
        k = k + 1;
    }
    proof {
        assert(digits@ == uuid_digits(s@));
        assert(digits@.len() == 32);
    }
    let mut acc: u128 = 0;
    let mut i: usize = 0;
    while i < 32
        invariant
            i <= 32,
            digits@ == uuid_digits(s@),
            digits@.len() == 32,
            forall|j: int| 0 <= j < i ==> is_hex_digit(#[trigger] digits@[j]),
            acc == hex_value(digits@.take(i as int)),
            acc < pow16(i as nat),
        decreases 32 - i,
    {
        let d = match hex_val_of(digits[i]) {
            None => {
                proof {
                    assert(!is_hex_digit(uuid_digits(s@)[i as int]));
                }
                return None;
            },
            Some(d) => d,
        };
        proof {
            assert(digits@.take(i + 1).drop_last() =~= digits@.take(i as int));
            assert(digits@.take(i + 1).last() == digits@[i as int]);
            lemma_pow16_mono(i as nat + 1, 32);
            lemma_pow16_32();
        }
        acc = acc * 16 + d as u128;
        i = i + 1;
    }
    proof {
        assert(digits@.take(32) =~= digits@);
    }
    Some(acc)
}

// ---------------------------------------------------------------------------
// Requests and responses
// ---------------------------------------------------------------------------

/// A parsed request, as the host hands it over. Identifiers arrive as the
/// strings the client sent.
pub enum Request {
    Authenticate { username: String, password: String },
    Enqueue { message: Vec<u8>, priority: Priority, required_capabilities: Vec<String> },
    Pop { available_capabilities: Vec<String>, wait_for_message: bool },
    Acknowledge { id: String },
}

/// The reply the host serializes. Identifiers leave as numbers; the host
/// renders them in the canonical hyphenated form.
pub enum Response {
    Authenticate { success: bool },
    Enqueue { id: u128 },
    Pop { had_result: bool, id: u128, message: Vec<u8> },
    Acknowledge,
    Error { message: String },
}

/// One client session: exactly one connection to the broker.
pub struct Client {
    outstanding_tasks: Vec<u128>,
    authenticated: bool,
}

impl Client {
    /// The ids this connection popped and has not yet acknowledged.
    pub closed spec fn outstanding(&self) -> Seq<u128> {
        self.outstanding_tasks@
    }

    /// Whether the authentication handshake has succeeded.
    pub closed spec fn is_authenticated(&self) -> bool {
        self.authenticated
    }

    /// Every id this connection holds is in the broker's in-flight map.
    pub open spec fn tracks(&self, qs: &QueueServer) -> bool {
        forall|k: int|
            0 <= k < self.outstanding().len() ==> entry_ids(qs.processing_entries()).contains(
                #[trigger] self.outstanding()[k],
            )
    }

    /// A fresh, unauthenticated session holding nothing.
    pub fn new() -> (r: Client)
        ensures
            r.outstanding() == Seq::<u128>::empty(),
            !r.is_authenticated(),
    {
        Client { outstanding_tasks: Vec::new(), authenticated: false }
    }

    /// Handles one request. The returned flag says whether the connection
    /// stays open: a failed or missing handshake closes it, everything
    /// after a successful handshake keeps it open.
    pub fn handle_request(
        &mut self,
        qs: &mut QueueServer,
        auth: &Authentication,
        req: Request,
    ) -> (r: (Response, bool))
        requires
            old(qs).wf(),
            auth.wf(),
            old(self).tracks(old(qs)),
        ensures
            final(qs).wf(),
            final(self).tracks(final(qs)),
            !old(self).is_authenticated() ==> final(qs).processing_entries() == old(qs).processing_entries() && final(qs).high_contents() == old(qs).high_contents()
                && final(qs).low_contents() == old(qs).low_contents() && final(qs).log_high()
                == old(qs).log_high() && final(qs).log_low() == old(qs).log_low() && final(qs).log_completed() == old(qs).log_completed() && final(qs).pending_effects() == old(qs).pending_effects() && final(self).outstanding() == old(self).outstanding(),
            !old(self).is_authenticated() && !(req is Authenticate) ==> (r.0 matches
                Response::Error { message } && !r.1 && !final(self).is_authenticated()),
            !old(self).is_authenticated() && (req matches Request::Authenticate { .. }) ==> (final(self).is_authenticated() <==> (r.0 matches Response::Authenticate {
                success,
            } && success && r.1)),
            (req matches Request::Authenticate { username, password } && !old(self).is_authenticated() && auth.has_user(username@)
                && crate::authentication::bcrypt_hash_parses(auth.stored_hash(username@))
                && crate::authentication::bcrypt_accepts(
                auth.stored_hash(username@),
                password@,
            )) ==> final(self).is_authenticated(),
            (req matches Request::Authenticate { username, password } && !old(self).is_authenticated() && !(auth.has_user(username@)
                && crate::authentication::bcrypt_accepts(
                auth.stored_hash(username@),
                password@,
            ))) ==> !final(self).is_authenticated() && !r.1,
            old(self).is_authenticated() ==> final(self).is_authenticated() && r.1,
    {
        if !self.authenticated {
            let r = match req {
                Request::Authenticate { username, password } => {
                    let ok = match auth.verify_user(username.as_str(), password.as_str()) {
                        Ok(b) => b,
                        Err(_) => false,
                    };
                    if ok {
                        self.authenticated = true;
                    }
                    (Response::Authenticate { success: ok }, ok)
                },
                _ => {
                    let message = "Invalid request".to_owned();
                    (Response::Error { message }, false)
                },
            };
            proof {
                assert forall|k: int|
                    0 <= k < self.outstanding().len() implies entry_ids(
                    qs.processing_entries(),
                ).contains(#[trigger] self.outstanding()[k]) by {
                    assert(old(self).outstanding()[k] == self.outstanding()[k]);
                }
            }
            r
        } else {
            match req {
                Request::Authenticate { .. } => {
                    // A repeated handshake on an open session is a no-op
                    // acknowledgement of the existing authentication.
                    (Response::Authenticate { success: true }, true)
                },
                Request::Enqueue { message, priority, required_capabilities } => (
                    self.enqueue(qs, message, priority, required_capabilities),
                    true,
                ),
                Request::Pop { available_capabilities, wait_for_message } => (
                    self.pop(qs, available_capabilities, wait_for_message),
                    true,
                ),
                Request::Acknowledge { id } => (self.acknowledge(qs, id), true),
            }
        }
    }

    /// Enqueues on behalf of the client and reports the assigned id.
    pub fn enqueue(
        &mut self,
        qs: &mut QueueServer,
        message: Vec<u8>,
        priority: Priority,
        required_capabilities: Vec<String>,
    ) -> (r: Response)
        requires
            old(qs).wf(),
            old(self).tracks(old(qs)),
        ensures
            final(qs).wf(),
            final(self).tracks(final(qs)),
            final(self).outstanding() == old(self).outstanding(),
            final(self).is_authenticated() == old(self).is_authenticated(),
            final(qs).processing_entries() == old(qs).processing_entries(),
            r matches Response::Enqueue { id } && ({
                let m = crate::models::ItemModel {
                    data: message@,
                    tags: required_capabilities@.map_values(|s: String| s@),
                    id,
                    priority,
                };
                &&& (priority is High ==> final(qs).log_high() == old(qs).log_high().push(m)
                    && final(qs).log_low() == old(qs).log_low())
                &&& (priority is Low ==> final(qs).log_low() == old(qs).log_low().push(m)
                    && final(qs).log_high() == old(qs).log_high())
                &&& final(qs).log_completed() == old(qs).log_completed()
            }),
    {
        match qs.enqueue(message, priority, required_capabilities) {
            Ok(created) => Response::Enqueue { id: created.id },
            Err(_) => Response::Error { message: "Failed to enqueue message".to_owned() },
        }
    }

    /// Pops on behalf of the client and tracks the received id.
    pub fn pop(
        &mut self,
        qs: &mut QueueServer,
        available_capabilities: Vec<String>,
        wait_for_message: bool,
    ) -> (r: Response)
        requires
            old(qs).wf(),
            old(self).tracks(old(qs)),
        ensures
            final(qs).wf(),
            final(self).tracks(final(qs)),
            final(self).is_authenticated() == old(self).is_authenticated(),
            match r {
                Response::Pop { had_result, id, message } => {
                    let caps = crate::models::tag_set_of(
                        available_capabilities@.map_values(|s: String| s@),
                    );
                    let choice = crate::queue_server::pair_choice(
                        old(qs).high_contents(),
                        old(qs).low_contents(),
                        caps,
                    );
                    &&& had_result ==> final(self).outstanding() == old(self).outstanding().push(id) && entry_ids(
                        final(qs).processing_entries(),
                    ).contains(id)
                    &&& !had_result ==> final(self).outstanding() == old(self).outstanding()
                    &&& match choice {
                        Some(it) => had_result && id == it.id && message@ == it.data@,
                        None => !had_result,
                    }
                },
                _ => false,
            },
    {
        let got = match qs.pop(available_capabilities, wait_for_message) {
            Ok(o) => o,
            Err(_) => None,
        };
        match got {
            Some(item) => {
                let ghost mid_entries = qs.processing_entries();
                self.outstanding_tasks.push(item.id);
                proof {
                    assert(entry_ids(qs.processing_entries()).contains(item.id)) by {
                        assert(qs.processing_entries().last().0 == item@.id);
                    }
                    assert forall|k: int|
                        0 <= k < self.outstanding().len() implies entry_ids(
                        qs.processing_entries(),
                    ).contains(#[trigger] self.outstanding()[k]) by {
                        if k < old(self).outstanding().len() {
                            assert(old(self).outstanding()[k] == self.outstanding()[k]);
                            assert(entry_ids(old(qs).processing_entries()).contains(
                                self.outstanding()[k],
                            ));
                            lemma_insert_keeps_ids(
                                old(qs).processing_entries(),
                                qs.processing_entries(),
                                item@.id,
                                item@,
                                self.outstanding()[k],
                            );
                        }
                    }
                }
                Response::Pop { had_result: true, id: item.id, message: item.data }
            },
            None => Response::Pop { had_result: false, id: 0, message: Vec::new() },
        }
    }

    /// Acknowledges the task named by the id string; a string that is not a
    /// canonical identifier is an error and changes nothing.
    pub fn acknowledge(&mut self, qs: &mut QueueServer, id: String) -> (r: Response)
        requires
            old(qs).wf(),
            old(self).tracks(old(qs)),
        ensures
            final(qs).wf(),
            final(self).tracks(final(qs)),
            final(self).is_authenticated() == old(self).is_authenticated(),
            !valid_uuid_str(id@) ==> (r matches Response::Error { message } && final(qs).processing_entries() == old(qs).processing_entries() && final(self).outstanding()
                == old(self).outstanding()),
            valid_uuid_str(id@) ==> (r matches Response::Acknowledge && final(qs).processing_entries() == crate::queue_server::remove_entry(
                old(qs).processing_entries(),
                uuid_value(id@) as u128,
            ) && final(qs).log_completed() == old(qs).log_completed().push(
                uuid_value(id@) as u128,
            )),
    {
        let parsed = parse_uuid(id.as_str());
        match parsed {
            None => {
                let message = "Failed to parse id to UUID".to_owned();
                Response::Error { message }
            },
            Some(uuid) => {
                match qs.acknowledge(uuid) {
                    Ok(()) => {},
                    Err(_) => {},
                }
                remove_id(&mut self.outstanding_tasks, uuid);
                proof {
                    crate::queue_server::lemma_remove_entry_props(
                        old(qs).processing_entries(),
                        uuid,
                    );
                    assert forall|k: int|
                        0 <= k < self.outstanding().len() implies entry_ids(
                        qs.processing_entries(),
                    ).contains(#[trigger] self.outstanding()[k]) by {
                        let x = self.outstanding()[k];
                        assert(old(self).outstanding().contains(x));
                        let j = choose|j: int|
                            0 <= j < old(self).outstanding().len() && old(self).outstanding()[j]
                                == x;
                        assert(entry_ids(old(qs).processing_entries()).contains(x));
                        assert(x != uuid);
                    }
                }
                Response::Acknowledge
            },
        }
    }

    /// Releases everything this connection still holds: each outstanding id
    /// is failed back into the queues.
    pub fn drop_connection(&mut self, qs: &mut QueueServer)
        requires
            old(qs).wf(),
        ensures
            final(qs).wf(),
            final(self).outstanding() == Seq::<u128>::empty(),
            final(qs).processing_entries() == crate::queue_server::remove_all(
                old(qs).processing_entries(),
                old(self).outstanding(),
            ),
            final(qs).log_high() == old(qs).log_high(),
            final(qs).log_low() == old(qs).log_low(),
            final(qs).log_completed() == old(qs).log_completed(),
            forall|k: int|
                0 <= k < old(self).outstanding().len() ==> !entry_ids(
                    final(qs).processing_entries(),
                ).contains(#[trigger] old(self).outstanding()[k]),
    {
        let ghost all = self.outstanding_tasks@;
        let mut rest: Vec<u128> = Vec::new();
        core::mem::swap(&mut rest, &mut self.outstanding_tasks);
        let n = rest.len();
        let mut k: usize = 0;
        while k < n
            invariant
                k <= n,
                n == rest@.len(),
                all == rest@,
                qs.wf(),
                qs.processing_entries() == crate::queue_server::remove_all(
                    old(qs).processing_entries(),
                    all.take(k as int),
                ),
                qs.log_high() == old(qs).log_high(),
                qs.log_low() == old(qs).log_low(),
                qs.log_completed() == old(qs).log_completed(),
                forall|j: int|
                    0 <= j < k ==> !entry_ids(qs.processing_entries()).contains(
                        #[trigger] all[j],
                    ),
            decreases n - k,
        {
            let ghost pre_entries = qs.processing_entries();
            let id = rest[k];
            match qs.fail(id) {
                Ok(()) => {},
                Err(_) => {},
            }
            proof {
                crate::queue_server::lemma_remove_entry_props(pre_entries, id);
                crate::queue_server::lemma_remove_all_snoc(
                    old(qs).processing_entries(),
                    all.take(k as int),
                    id,
                );
                assert(all.take(k as int).push(all[k as int]) =~= all.take(k + 1));
                assert forall|j: int| 0 <= j < k + 1 implies !entry_ids(
                    qs.processing_entries(),
                ).contains(#[trigger] all[j]) by {
                    if j < k {
                        assert(!entry_ids(pre_entries).contains(all[j]));
                    }
                }
            }
            k = k + 1;
        }
        proof {
            assert(all.take(all.len() as int) =~= all);
        }
    }
}

/// Removing one key from the map keeps every other id reachable.
proof fn lemma_insert_keeps_ids(
    pre: Seq<(u128, crate::models::ItemModel)>,
    post: Seq<(u128, crate::models::ItemModel)>,
    inserted: u128,
    m: crate::models::ItemModel,
    x: u128,
)
    requires
        post == crate::queue_server::remove_entry(pre, inserted).push((inserted, m)),
        entry_ids(pre).contains(x),
    ensures
        entry_ids(post).contains(x),
{
    crate::queue_server::lemma_remove_entry_props(pre, inserted);
    if x == inserted {
        assert(post[post.len() - 1].0 == x);
    } else {
        assert(entry_ids(crate::queue_server::remove_entry(pre, inserted)).contains(x));
        let k = choose|k: int|
            0 <= k < crate::queue_server::remove_entry(pre, inserted).len()
                && crate::queue_server::remove_entry(pre, inserted)[k].0 == x;
        assert(post[k].0 == x);
    }
}

/// Removes every occurrence of the id from the tracker.
fn remove_id(v: &mut Vec<u128>, id: u128)
    ensures
        forall|k: int| 0 <= k < final(v)@.len() ==> (#[trigger] final(v)@[k]) != id,
        forall|k: int|
            0 <= k < final(v)@.len() ==> old(v)@.contains(#[trigger] final(v)@[k]),
{
    let mut rest: Vec<u128> = Vec::new();
    core::mem::swap(v, &mut rest);
    let n = rest.len();
    let mut k: usize = 0;
    while k < n
        invariant
            k <= n,
            n == rest@.len(),
            forall|j: int| 0 <= j < v@.len() ==> (#[trigger] v@[j]) != id,
            forall|j: int| 0 <= j < v@.len() ==> rest@.contains(#[trigger] v@[j]),
        decreases n - k,
    {
        let x = rest[k];
        if x != id {
            v.push(x);
            proof {
                assert(rest@.contains(x)) by {
                    assert(rest@[k as int] == x);
                }
            }
        }
        k = k + 1;
    }
}

} // verus!
