//! The credential store: a username to password-hash map with a tunable
//! work-factor password hash. The host program persists it through
//! [`Authentication::encode_users`] and [`Authentication::from_encoded`].

use vstd::prelude::*;

use crate::codec::{dec_str, enc_str, read_str, write_str};

verus! {

#[derive(Clone, Copy, Debug, PartialEq, Eq, Structural)]
pub enum AuthenticationError {
    IOError,
    SerializationError,
    MutexCorrupted,
    BcryptError,
    UserAlreadyExists,
}

/// The work factor a fresh store hashes with: bcrypt's own default cost.
pub const BCRYPT_COST: u32 = 12;

/// Whether bcrypt's verify accepts this password against this hash. The
/// result depends on the two arguments alone: the salt is part of the hash.
pub uninterp spec fn bcrypt_accepts(hash: Seq<char>, password: Seq<char>) -> bool;

/// Whether the string has the well-formed shape bcrypt::hash produces:
/// version prefix, an in-range cost and base64 salt and digest. On such a
/// string bcrypt::verify parses, re-derives and compares — it never errors.
pub uninterp spec fn bcrypt_hash_parses(hash: Seq<char>) -> bool;

/// Relies on bcrypt::hash: a freshly salted, well-formed hash of the
/// password with the given work factor, which bcrypt::verify accepts
/// against that password. The cost must lie in bcrypt's allowed range.
#[verifier::external_body]
fn hash_password(password: &str, cost: u32) -> (r: Result<String, AuthenticationError>)
    requires
        4 <= cost <= 31,
    ensures
        r matches Ok(h) ==> bcrypt_accepts(h@, password@) && bcrypt_hash_parses(h@),
        r matches Err(e) ==> e == AuthenticationError::BcryptError,
{
    match bcrypt::hash(password, cost) {
        Ok(h) => Ok(h),
        Err(_) => Err(AuthenticationError::BcryptError),
    }
}

/// Relies on bcrypt::verify: it re-derives the hash from the cost and salt
/// stored in `hash`, so the result is a function of the password and hash
/// alone; its only error path is a hash that does not parse.
#[verifier::external_body]
fn verify_password(password: &str, hash: &str) -> (r: Result<bool, AuthenticationError>)
    ensures
        r matches Ok(b) ==> b == bcrypt_accepts(hash@, password@),
        bcrypt_hash_parses(hash@) ==> r is Ok,
{
    match bcrypt::verify(password, hash) {
        Ok(b) => Ok(b),
        Err(_) => Err(AuthenticationError::BcryptError),
    }
}

/// The in-memory credential map: usernames with their password hashes,
/// hashed at a tunable work factor.
#[derive(Debug)]
pub struct Authentication {
    users: Vec<(String, String)>,
    cost: u32,
}

impl Authentication {
    /// The stored (username, hash) pairs, in insertion order.
    pub closed spec fn users_list(&self) -> Seq<(Seq<char>, Seq<char>)> {
        self.users@.map_values(|p: (String, String)| (p.0@, p.1@))
    }

    /// The configured bcrypt work factor.
    pub closed spec fn spec_cost(&self) -> u32 {
        self.cost
    }

    /// Usernames are unique and the work factor lies in bcrypt's range.
    pub open spec fn wf(&self) -> bool {
        &&& forall|i: int, j: int|
            0 <= i < j < self.users_list().len() ==> (#[trigger] self.users_list()[i]).0 != (
            #[trigger] self.users_list()[j]).0
        &&& 4 <= self.spec_cost() <= 31
    }

    /// Whether a user of this name exists.
    pub open spec fn has_user(&self, name: Seq<char>) -> bool {
        exists|k: int| 0 <= k < self.users_list().len() && (#[trigger] self.users_list()[k]).0
            == name
    }

    /// The stored hash of the named user.
    pub open spec fn stored_hash(&self, name: Seq<char>) -> Seq<char> {
        self.users_list()[choose|k: int|
            0 <= k < self.users_list().len() && (#[trigger] self.users_list()[k]).0 == name].1
    }

    /// An empty credential store at the default work factor.
    pub fn new() -> (r: Authentication)
        ensures
            r.wf(),
            r.users_list() == Seq::<(Seq<char>, Seq<char>)>::empty(),
            r.spec_cost() == BCRYPT_COST,
    {
        Authentication::with_cost(BCRYPT_COST)
    }

    /// An empty credential store at the given work factor.
    pub fn with_cost(cost: u32) -> (r: Authentication)
        requires
            4 <= cost <= 31,
        ensures
            r.wf(),
            r.users_list() == Seq::<(Seq<char>, Seq<char>)>::empty(),
            r.spec_cost() == cost,
    {
        let r = Authentication { users: Vec::new(), cost };
        proof {
            assert(r.users_list() =~= Seq::<(Seq<char>, Seq<char>)>::empty());
        }
        r
    }

    /// The position of the named user, if any.
    fn find_user(&self, username: &str) -> (r: Option<usize>)
        ensures
            match r {
                Some(k) => k < self.users_list().len() && self.users_list()[k as int].0
                    == username@,
                None => !self.has_user(username@),
            },
    {
        let mut k: usize = 0;
        while k < self.users.len()
            invariant
                k <= self.users@.len(),
                forall|j: int| 0 <= j < k ==> (#[trigger] self.users_list()[j]).0 != username@,
            decreases self.users@.len() - k,
        {
            let candidate = username.to_owned();
            if self.users[k].0.eq(&candidate) {
                proof {
                    assert(self.users_list()[k as int].0 == username@);
                }
                return Some(k);
            }
            k = k + 1;
        }
        proof {
            if self.has_user(username@) {
                let j = choose|j: int|
                    0 <= j < self.users_list().len() && (#[trigger] self.users_list()[j]).0
                        == username@;
                assert(false);
            }
        }
        None
    }

    /// True exactly when the user exists and bcrypt accepts the password
    /// against the stored hash. An unknown user is a plain `false`, never an
    /// error.
    pub fn verify_user(&self, username: &str, password: &str) -> (r: Result<
        bool,
        AuthenticationError,
    >)
        requires
            self.wf(),
        ensures
            r matches Ok(b) ==> b == (self.has_user(username@) && bcrypt_accepts(
                self.stored_hash(username@),
                password@,
            )),
            !self.has_user(username@) ==> (r matches Ok(b) && !b),
            self.has_user(username@) && bcrypt_hash_parses(self.stored_hash(username@))
                ==> r is Ok,
    {
        match self.find_user(username) {
            None => Ok(false),
            Some(k) => {
                let r = verify_password(password, self.users[k].1.as_str());
                proof {
                    let j = choose|j: int|
                        0 <= j < self.users_list().len() && (#[trigger] self.users_list()[j]).0
                            == username@;
                    assert(j == k);
                }
                r
            },
        }
    }

    /// Adds a user with a freshly hashed password; refuses a name that is
    /// already taken.
    pub fn add_user(&mut self, username: String, password: String) -> (r: Result<
        (),
        AuthenticationError,
    >)
        requires
            old(self).wf(),
        ensures
            final(self).wf(),
            final(self).spec_cost() == old(self).spec_cost(),
            old(self).has_user(username@) ==> r == Err::<(), AuthenticationError>(
                AuthenticationError::UserAlreadyExists,
            ) && final(self).users_list() == old(self).users_list(),
            r matches Ok(()) ==> !old(self).has_user(username@) && final(self).users_list().len()
                == old(self).users_list().len() + 1 && final(self).users_list().last().0
                == username@ && bcrypt_accepts(
                final(self).users_list().last().1,
                password@,
            ) && bcrypt_hash_parses(final(self).users_list().last().1) && final(self).users_list().take(old(self).users_list().len() as int) == old(self).users_list(),
            r matches Err(e) ==> final(self).users_list() == old(self).users_list() && ((e
                == AuthenticationError::UserAlreadyExists && old(self).has_user(username@)) || (e
                == AuthenticationError::BcryptError && !old(self).has_user(username@))),
    {
        match self.find_user(username.as_str()) {
            Some(_) => Err(AuthenticationError::UserAlreadyExists),
            None => {
                let hash = match hash_password(password.as_str(), self.cost) {
                    Ok(h) => h,
                    Err(e) => {
                        return Err(e);
                    },
                };
                let ghost pre = self.users_list();
                let ghost hv = hash@;
                self.users.push((username, hash));
                proof {
                    assert(self.users_list() =~= pre.push(
                        (self.users@.last().0@, self.users@.last().1@),
                    ));
                    assert(self.users_list().take(pre.len() as int) =~= pre);
                    assert forall|i: int, j: int|
                        0 <= i < j < self.users_list().len() implies (
                    #[trigger] self.users_list()[i]).0 != (
                    #[trigger] self.users_list()[j]).0 by {
                        if j < pre.len() {
                            assert(pre[i].0 != pre[j].0);
                        } else {
                            assert(!old(self).has_user(self.users_list()[j].0));
                        }
                    }
                }
                Ok(())
            },
        }
    }

    /// Adds the user only when no user exists at all; says whether it did.
    pub fn add_default_user(&mut self, username: String, password: String) -> (r: Result<
        bool,
        AuthenticationError,
    >)
        requires
            old(self).wf(),
        ensures
            final(self).wf(),
            final(self).spec_cost() == old(self).spec_cost(),
            old(self).users_list().len() > 0 ==> (r matches Ok(added) && !added && final(self).users_list() == old(self).users_list()),
            old(self).users_list().len() == 0 ==> (r matches Ok(added) ==> added),
            r matches Err(e) ==> e == AuthenticationError::BcryptError && final(self).users_list() == old(self).users_list(),
            r matches Ok(added) && added ==> old(self).users_list().len() == 0 && final(self).users_list().len() == 1 && final(self).users_list().last().0 == username@
                && bcrypt_accepts(final(self).users_list().last().1, password@)
                && bcrypt_hash_parses(final(self).users_list().last().1),
    {
        if self.users.len() > 0 {
            return Ok(false);
        }
        match self.add_user(username, password) {
            Ok(()) => Ok(true),
            Err(e) => Err(e),
        }
    }
}

// ---------------------------------------------------------------------------
// Persistence: the store as a stream of (name, hash) string pairs
// ---------------------------------------------------------------------------

pub open spec fn enc_users(l: Seq<(Seq<char>, Seq<char>)>) -> Seq<u8>
    decreases l.len(),
{
    if l.len() == 0 {
        Seq::empty()
    } else {
        enc_str(l[0].0) + enc_str(l[0].1) + enc_users(l.drop_first())
    }
}

pub proof fn lemma_enc_users_snoc(l: Seq<(Seq<char>, Seq<char>)>, p: (Seq<char>, Seq<char>))
    ensures
        enc_users(l.push(p)) == enc_users(l) + enc_str(p.0) + enc_str(p.1),
    decreases l.len(),
{
    if l.len() == 0 {
        assert(l.push(p).drop_first() =~= l);
        assert(enc_users(l.push(p)) =~= enc_users(l) + enc_str(p.0) + enc_str(p.1));
    } else {
        assert(l.push(p).drop_first() =~= l.drop_first().push(p));
        lemma_enc_users_snoc(l.drop_first(), p);
        assert(enc_users(l.push(p)) =~= enc_users(l) + enc_str(p.0) + enc_str(p.1));
    }
}

/// The user pairs read off a byte stream, stopping at the first position
/// that does not hold a full pair.
pub open spec fn dec_users(b: Seq<u8>, i: int) -> Seq<(Seq<char>, Seq<char>)>
    decreases b.len() - i,
{
    if 0 <= i <= b.len() {
        match dec_str(b, i) {
            None => Seq::empty(),
            Some((name, j)) => match dec_str(b, j) {
                None => Seq::empty(),
                Some((hash, k)) => if i < k <= b.len() {
                    seq![(name, hash)] + dec_users(b, k)
                } else {
                    Seq::empty()
                },
            },
        }
    } else {
        Seq::empty()
    }
}

/// The hash stored under the first occurrence of the name, if any.
pub open spec fn lookup_first(
    l: Seq<(Seq<char>, Seq<char>)>,
    name: Seq<char>,
) -> Option<Seq<char>>
    decreases l.len(),
{
    if l.len() == 0 {
        None
    } else if l[0].0 == name {
        Some(l[0].1)
    } else {
        lookup_first(l.drop_first(), name)
    }
}

proof fn lemma_lookup_first_snoc(
    l: Seq<(Seq<char>, Seq<char>)>,
    p: (Seq<char>, Seq<char>),
    name: Seq<char>,
)
    ensures
        lookup_first(l.push(p), name) == (match lookup_first(l, name) {
            Some(h) => Some(h),
            None => if p.0 == name {
                Some(p.1)
            } else {
                None
            },
        }),
    decreases l.len(),
{
    if l.len() == 0 {
        assert(l.push(p).drop_first() =~= l);
    } else {
        assert(l.push(p).drop_first() =~= l.drop_first().push(p));
        lemma_lookup_first_snoc(l.drop_first(), p, name);
    }
}

proof fn lemma_lookup_none(l: Seq<(Seq<char>, Seq<char>)>, name: Seq<char>)
    ensures
        (lookup_first(l, name) is None) <==> (forall|k: int|
            0 <= k < l.len() ==> (#[trigger] l[k]).0 != name),
    decreases l.len(),
{
    if l.len() != 0 {
        let rest = l.drop_first();
        lemma_lookup_none(rest, name);
        if lookup_first(l, name) is None {
            assert forall|k: int| 0 <= k < l.len() implies (#[trigger] l[k]).0 != name by {
                if k > 0 {
                    assert(rest[k - 1] == l[k]);
                }
            }
        }
        if forall|k: int| 0 <= k < l.len() ==> (#[trigger] l[k]).0 != name {
            assert forall|k: int| 0 <= k < rest.len() implies (#[trigger] rest[k]).0
                != name by {
                assert(rest[k] == l[k + 1]);
            }
        }
    }
}

impl Authentication {
    /// Serializes the stored users for the host to persist.
    pub fn encode_users(&self) -> (r: Vec<u8>)
        ensures
            r@ == enc_users(self.users_list()),
    {
        let ghost l = self.users_list();
        let mut out: Vec<u8> = Vec::new();
        let mut k: usize = 0;
        while k < self.users.len()
            invariant
                k <= self.users@.len(),
                l == self.users_list(),
                out@ == enc_users(l.take(k as int)),
            decreases self.users@.len() - k,
        {
            write_str(&mut out, &self.users[k].0);
            write_str(&mut out, &self.users[k].1);
            proof {
                lemma_enc_users_snoc(l.take(k as int), l[k as int]);
                assert(l.take(k as int).push(l[k as int]) =~= l.take(k + 1));
            }
            k = k + 1;
        }
        proof {
            assert(l.take(l.len() as int) =~= l);
        }
        out
    }

    /// Rebuilds a store from persisted bytes at the given work factor. A
    /// name that occurs twice in the stream keeps its first hash, so the
    /// result is well formed whatever the bytes hold.
    #[verifier::loop_isolation(false)]
    pub fn from_encoded(bytes: &Vec<u8>, cost: u32) -> (r: Authentication)
        requires
            4 <= cost <= 31,
        ensures
            r.wf(),
            r.spec_cost() == cost,
            forall|k: int|
                0 <= k < r.users_list().len() ==> lookup_first(
                    dec_users(bytes@, 0),
                    (#[trigger] r.users_list()[k]).0,
                ) == Some(r.users_list()[k].1),
            forall|k: int|
                0 <= k < dec_users(bytes@, 0).len() ==> r.has_user(
                    (#[trigger] dec_users(bytes@, 0)[k]).0,
                ),
    {
        let ghost full = dec_users(bytes@, 0);
        let mut auth = Authentication::with_cost(cost);
        let mut i: usize = 0;
        let ghost done: Seq<(Seq<char>, Seq<char>)> = Seq::empty();
        let mut gdone = Ghost(done);
        while i <= bytes.len()
            invariant
                i <= bytes@.len() || gdone@.len() == 0,
                auth.wf(),
                auth.spec_cost() == cost,
                gdone@ + dec_users(bytes@, i as int) == full,
                forall|k: int|
                    0 <= k < auth.users_list().len() ==> lookup_first(
                        gdone@,
                        (#[trigger] auth.users_list()[k]).0,
                    ) == Some(auth.users_list()[k].1),
                forall|k: int|
                    0 <= k < gdone@.len() ==> auth.has_user((#[trigger] gdone@[k]).0),
            decreases bytes@.len() - i + 1,
        {
            let (name, j) = match read_str(bytes, i) {
                None => {
                    proof {
                        assert(dec_users(bytes@, i as int) =~= Seq::<
                            (Seq<char>, Seq<char>),
                        >::empty());
                        assert(gdone@ + Seq::<(Seq<char>, Seq<char>)>::empty() =~= gdone@);
                    }
                    return auth;
                },
                Some(p) => p,
            };
            let (hash, k2) = match read_str(bytes, j) {
                None => {
                    proof {
                        assert(dec_users(bytes@, i as int) =~= Seq::<
                            (Seq<char>, Seq<char>),
                        >::empty());
                        assert(gdone@ + Seq::<(Seq<char>, Seq<char>)>::empty() =~= gdone@);
                    }
                    return auth;
                },
                Some(p) => p,
            };
            proof {
                assert(i < k2 <= bytes@.len());
                assert(dec_users(bytes@, i as int) == seq![(name@, hash@)] + dec_users(
                    bytes@,
                    k2 as int,
                ));
            }
            let ghost pre_done = gdone@;
            let ghost pre_list = auth.users_list();
            let present = auth.find_user(name.as_str());
            if present.is_none() {
                auth.insert_unchecked(name, hash);
            }
            gdone = Ghost(pre_done.push((name@, hash@)));
            proof {
                assert(pre_done + (seq![(name@, hash@)] + dec_users(bytes@, k2 as int))
                    =~= gdone@ + dec_users(bytes@, k2 as int));
                if !auth.has_user(name@) || pre_list.len() < auth.users_list().len() {
                    // The name was fresh: nothing in the done prefix held it.
                    assert forall|k: int| 0 <= k < pre_done.len() implies (
                    #[trigger] pre_done[k]).0 != name@ by {
                        if pre_done[k].0 == name@ {
                            let j2 = choose|j2: int|
                                0 <= j2 < pre_list.len() && (#[trigger] pre_list[j2]).0
                                    == pre_done[k].0;
                        }
                    }
                    lemma_lookup_none(pre_done, name@);
                }
                assert forall|k: int|
                    0 <= k < auth.users_list().len() implies lookup_first(
                    gdone@,
                    (#[trigger] auth.users_list()[k]).0,
                ) == Some(auth.users_list()[k].1) by {
                    lemma_lookup_first_snoc(pre_done, (name@, hash@), auth.users_list()[k].0);
                    if k < pre_list.len() {
                        assert(auth.users_list()[k] == pre_list[k]);
                        assert(lookup_first(pre_done, pre_list[k].0) == Some(pre_list[k].1));
                    } else {
                        assert(auth.users_list()[k] == (name@, hash@));
                        assert(lookup_first(pre_done, name@) is None);
                    }
                }
                assert forall|k: int| 0 <= k < gdone@.len() implies auth.has_user(
                    (#[trigger] gdone@[k]).0,
                ) by {
                    if k < pre_done.len() {
                        let j2 = choose|j2: int|
                            0 <= j2 < pre_list.len() && (#[trigger] pre_list[j2]).0
                                == pre_done[k].0;
                        assert(auth.users_list()[j2].0 == pre_done[k].0);
                    } else {
                        assert(auth.has_user(name@));
                    }
                }
            }
            i = k2;
        }
        proof {
            assert(dec_users(bytes@, i as int) =~= Seq::<(Seq<char>, Seq<char>)>::empty());
            assert(gdone@ + Seq::<(Seq<char>, Seq<char>)>::empty() =~= gdone@);
        }
        auth
    }

    /// Appends a pair known to carry a fresh name.
    fn insert_unchecked(&mut self, name: String, hash: String)
        requires
            old(self).wf(),
            !old(self).has_user(name@),
        ensures
            final(self).wf(),
            final(self).spec_cost() == old(self).spec_cost(),
            final(self).users_list() == old(self).users_list().push((name@, hash@)),
            final(self).has_user(name@),
    {
        let ghost pre = self.users_list();
        let ghost nv = name@;
        self.users.push((name, hash));
        proof {
            assert(self.users_list() =~= pre.push(
                (self.users@.last().0@, self.users@.last().1@),
            ));
            assert(self.users_list().last().0 == nv);
            assert(self.has_user(nv)) by {
                assert(self.users_list()[self.users_list().len() - 1].0 == nv);
            }
            assert forall|i: int, j: int|
                0 <= i < j < self.users_list().len() implies (
            #[trigger] self.users_list()[i]).0 != (#[trigger] self.users_list()[j]).0 by {
                if j < pre.len() {
                    assert(pre[i].0 != pre[j].0);
                } else {
                    assert(!old(self).has_user(self.users_list()[j].0));
                }
            }
        }
    }
}

} // verus!
