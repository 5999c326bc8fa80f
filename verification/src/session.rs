//! Opaque session tokens and the table that gives them meaning.
//!
//! An opaque token is 256 random bits. It says nothing by itself: the table
//! maps it to the identity it was opened for. The table lives as long as the
//! process, forgets nothing, and must be used by one caller at a time.
//!
//! The table is a vector with the invariant that no token stands in it twice.
//! A hash map would be the obvious choice, but of a hash map keyed by a token
//! Verus proves nothing: its model of `HashMap` holds for keys that are
//! integers, and 256 bits are more than any integer type has.

use rand::Rng;
use vstd::prelude::*;

use crate::bytes::bytes_eq;
use crate::identity::Identity;

verus! {

/// An opaque session token: 256 bits.
#[derive(Debug, Clone, Copy, Eq, Hash)]
pub struct Token(pub [u8; 32]);

impl View for Token {
    type V = Seq<u8>;

    open spec fn view(&self) -> Seq<u8> {
        self.0@
    }
}

impl PartialEq for Token {
    fn eq(&self, other: &Token) -> (same: bool) {
        bytes_eq(self.0.as_slice(), other.0.as_slice())
    }
}

impl vstd::std_specs::cmp::PartialEqSpecImpl for Token {
    open spec fn obeys_eq_spec() -> bool {
        true
    }

    open spec fn eq_spec(&self, other: &Token) -> bool {
        self@ == other@
    }
}

impl Default for Token {
    fn default() -> (token: Token)
        ensures
            token@ == Seq::new(32, |i: int| 0u8),
    {
        let token = Token([0u8; 32]);
        assert(token@ =~= Seq::new(32, |i: int| 0u8));
        token
    }
}

/// Calls `rand::rng().random::<[u8; 32]>()`. Nothing is claimed of the bytes:
/// they are random.
#[verifier::external_body]
fn random_bytes() -> (bytes: [u8; 32]) {
    rand::rng().random::<[u8; 32]>()
}

/// One session: a token and the identity it was opened for.
#[derive(Debug, Clone, Copy)]
pub struct Session {
    /// The token that the client presents.
    pub token: Token,
    /// The identity that the token stands for.
    pub identity: Identity,
}

/// The table of live sessions.
pub struct SessionTable {
    sessions: Vec<Session>,
}

impl View for SessionTable {
    type V = Map<Seq<u8>, Identity>;

    closed spec fn view(&self) -> Map<Seq<u8>, Identity> {
        Map::new(
            |token: Seq<u8>| exists|i: int| 0 <= i < self.sessions@.len() && self.sessions@[i].token@ == token,
            |token: Seq<u8>| self.sessions@[self.slot(token)].identity,
        )
    }
}

impl SessionTable {
    /// A position in the table at which `token` stands.
    closed spec fn slot(&self, token: Seq<u8>) -> int {
        choose|i: int| 0 <= i < self.sessions@.len() && self.sessions@[i].token@ == token
    }

    /// Whether the table satisfies its invariant: no token stands in it twice.
    pub closed spec fn wf(&self) -> bool {
        forall|i: int, j: int|
            0 <= i < j < self.sessions@.len() ==> self.sessions@[i].token@ != self.sessions@[j].token@
    }

    /// Makes a table without sessions.
    pub fn new() -> (table: SessionTable)
        ensures
            table.wf(),
            table@ == Map::<Seq<u8>, Identity>::empty(),
    {
        let table = SessionTable { sessions: Vec::new() };
        assert(table@ =~= Map::<Seq<u8>, Identity>::empty());
        table
    }

    /// The number of live sessions.
    pub fn len(&self) -> (n: usize)
        requires
            self.wf(),
        ensures
            n == self@.dom().len(),
            self@.dom().finite(),
    {
        proof {
            self.lemma_domain_size(self.sessions@.len() as int);
            assert(self.prefix_domain(self.sessions@.len() as int) =~= self@.dom());
        }
        self.sessions.len()
    }

    /// The tokens that stand in the first `n` positions.
    closed spec fn prefix_domain(&self, n: int) -> Set<Seq<u8>> {
        Set::new(|token: Seq<u8>| exists|i: int| 0 <= i < n && self.sessions@[i].token@ == token)
    }

    proof fn lemma_domain_size(&self, n: int)
        requires
            self.wf(),
            0 <= n <= self.sessions@.len(),
        ensures
            self.prefix_domain(n).finite(),
            self.prefix_domain(n).len() == n,
        decreases n,
    {
        if n == 0 {
            assert(self.prefix_domain(0) =~= Set::<Seq<u8>>::empty());
        } else {
            self.lemma_domain_size(n - 1);
            let last = self.sessions@[n - 1].token@;
            assert(!self.prefix_domain(n - 1).contains(last));
            assert(self.prefix_domain(n) =~= self.prefix_domain(n - 1).insert(last));
        }
    }

    /// The position at which `token` stands, if it stands in the table.
    fn position(&self, token: &Token) -> (at: Option<usize>)
        ensures
            match at {
                Some(i) => i < self.sessions@.len() && self.sessions@[i as int].token@ == token@,
                None => !self@.dom().contains(token@),
            },
    {
        let mut i: usize = 0;
        while i < self.sessions.len()
            invariant
                i <= self.sessions@.len(),
                forall|k: int| 0 <= k < i ==> self.sessions@[k].token@ != token@,
            decreases self.sessions@.len() - i,
        {
            if self.sessions[i].token == *token {
                return Some(i);
            }
            i = i + 1;
        }
        None
    }

    /// Tells whether `token` is the token of a live session.
    pub fn contains(&self, token: &Token) -> (live: bool)
        requires
            self.wf(),
        ensures
            live == self@.dom().contains(token@),
    {
        self.position(token).is_some()
    }

    /// Returns the identity that `token` was opened for, or `None` if it is the
    /// token of no live session.
    pub fn identity_of(&self, token: &Token) -> (r: Option<Identity>)
        requires
            self.wf(),
        ensures
            r == if self@.dom().contains(token@) {
                Some(self@[token@])
            } else {
                None
            },
    {
        match self.position(token) {
            Some(i) => {
                proof {
                    let j = self.slot(token@);
                    assert(j == i);
                }
                Some(self.sessions[i].identity)
            },
            None => None,
        }
    }

    /// Records a session under `token`, unless the token is taken.
    ///
    /// Returns `true` and maps `token` to `identity`, or returns `false` and
    /// changes nothing where `token` is already the token of a live session:
    /// a session is never overwritten.
    pub fn insert(&mut self, token: Token, identity: Identity) -> (inserted: bool)
        requires
            old(self).wf(),
        ensures
            final(self).wf(),
            inserted == !old(self)@.dom().contains(token@),
            final(self)@ == if inserted {
                old(self)@.insert(token@, identity)
            } else {
                old(self)@
            },
    {
        if self.position(&token).is_some() {
            return false;
        }
        self.sessions.push(Session { token, identity });
        proof {
            let before = old(self).sessions@;
            let after = self.sessions@;
            let last = before.len() as int;
            assert(after[last].token@ == token@);
            assert forall|t: Seq<u8>| self@.dom().contains(t) <==> old(self)@.insert(
                token@,
                identity,
            ).dom().contains(t) by {
                if old(self)@.dom().contains(t) {
                    let i = old(self).slot(t);
                    assert(after[i] == before[i]);
                }
                if self@.dom().contains(t) && t != token@ {
                    let i = self.slot(t);
                    assert(after[i] == before[i]);
                }
            }
            assert forall|t: Seq<u8>| self@.dom().contains(t) implies #[trigger] self@[t] == old(
                self,
            )@.insert(token@, identity)[t] by {
                let i = self.slot(t);
                if t == token@ {
                    if i < last {
                        assert(after[i] == before[i]);
                    }
                } else {
                    assert(after[i] == before[i]);
                    let j = old(self).slot(t);
                    assert(after[j] == before[j]);
                    assert(i == j);
                }
            }
            assert(self@ =~= old(self)@.insert(token@, identity));
        }
        true
    }

    /// Opens a session for `identity` under a token drawn at random.
    ///
    /// Returns the token, which had no session before and now stands for
    /// `identity`. Returns `None`, and changes nothing, only where the token
    /// drawn is taken already: a caller treats that as fatal. In a table
    /// without sessions no token is taken, so there a session is always opened.
    pub fn open(&mut self, identity: Identity) -> (r: Option<Token>)
        requires
            old(self).wf(),
        ensures
            final(self).wf(),
            match r {
                Some(token) => !old(self)@.dom().contains(token@) && final(self)@ == old(self)@.insert(
                    token@,
                    identity,
                ),
                None => final(self)@ == old(self)@,
            },
            old(self)@ == Map::<Seq<u8>, Identity>::empty() ==> r is Some,
    {
        let token = Token(random_bytes());
        if self.insert(token, identity) {
            Some(token)
        } else {
            None
        }
    }
}

} // verus!
