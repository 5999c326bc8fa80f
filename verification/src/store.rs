//! The credential store: one record per registered user, found by email.
//!
//! Email is the natural key. A record is written once, at registration, and is
//! never changed or removed afterwards.

use vstd::prelude::*;

use crate::identity::Identity;
use crate::password::EncodedHash;

verus! {

/// Why the store refused an operation.
#[derive(Debug, Clone, Copy, PartialEq, Eq, Structural)]
pub enum StoreError {
    /// A record with this email exists already.
    AlreadyExists,
    /// No record has this email.
    NotFound,
}

/// What the store keeps of one user.
#[derive(Debug, Clone, PartialEq, Eq)]
pub struct CredentialRecord {
    /// The identity that the store assigned at registration.
    pub identity: Identity,
    /// The name the user chose.
    pub username: String,
    /// The email, unique among all records.
    pub email: String,
    /// The encoded hash of the user's secret; the secret itself is never kept.
    pub password_hash: EncodedHash,
}

/// A record as a mathematical value.
pub ghost struct Record {
    pub identity: Identity,
    pub username: Seq<char>,
    pub email: Seq<char>,
    pub password_hash: Seq<char>,
}

impl View for CredentialRecord {
    type V = Record;

    open spec fn view(&self) -> Record {
        Record {
            identity: self.identity,
            username: self.username@,
            email: self.email@,
            password_hash: self.password_hash@,
        }
    }
}

/// Whether some record of `records` has the email `email`.
pub open spec fn has_email(records: Seq<Record>, email: Seq<char>) -> bool {
    exists|i: int| 0 <= i < records.len() && #[trigger] records[i].email == email
}

/// The record of `records` with the email `email`, where there is one.
pub open spec fn record_of(records: Seq<Record>, email: Seq<char>) -> Option<Record> {
    if has_email(records, email) {
        Some(records[choose|i: int| 0 <= i < records.len() && #[trigger] records[i].email == email])
    } else {
        None
    }
}

/// What a store must always satisfy: no email occurs twice, and the identity of
/// a record is its position in the order of registration.
pub open spec fn well_formed(records: Seq<Record>) -> bool {
    &&& records.len() <= u128::MAX
    &&& forall|i: int| 0 <= i < records.len() ==> (#[trigger] records[i]).identity == Identity(i as u128)
    &&& forall|i: int, j: int|
        0 <= i < j < records.len() ==> (#[trigger] records[i]).email != (#[trigger] records[j]).email
}

/// The records after a request to create one, and the answer to the request.
pub open spec fn created(
    records: Seq<Record>,
    username: Seq<char>,
    email: Seq<char>,
    password_hash: Seq<char>,
) -> (Seq<Record>, Result<Identity, StoreError>) {
    if has_email(records, email) {
        (records, Err(StoreError::AlreadyExists))
    } else {
        let identity = Identity(records.len() as u128);
        (records.push(Record { identity, username, email, password_hash }), Ok(identity))
    }
}

/// The credential store.
pub struct CredentialStore {
    records: Vec<CredentialRecord>,
}

impl View for CredentialStore {
    type V = Seq<Record>;

    closed spec fn view(&self) -> Seq<Record> {
        self.records@.map_values(|r: CredentialRecord| r@)
    }
}

impl CredentialStore {
    /// Whether the store satisfies its invariant.
    pub open spec fn wf(&self) -> bool {
        well_formed(self@)
    }

    /// Makes a store without records.
    pub fn new() -> (store: CredentialStore)
        ensures
            store.wf(),
            store@ == Seq::<Record>::empty(),
    {
        let store = CredentialStore { records: Vec::new() };
        assert(store@ =~= Seq::<Record>::empty());
        store
    }

    /// The number of records.
    pub fn len(&self) -> (n: usize)
        ensures
            n == self@.len(),
    {
        self.records.len()
    }

    /// The position of the record with the email `email`, if there is one.
    fn position(&self, email: &String) -> (at: Option<usize>)
        ensures
            match at {
                Some(i) => i < self@.len() && self@[i as int].email == email@,
                None => !has_email(self@, email@),
            },
    {
        let mut i: usize = 0;
        while i < self.records.len()
            invariant
                i <= self.records@.len(),
                forall|k: int| 0 <= k < i ==> (#[trigger] self@[k]).email != email@,
            decreases self.records@.len() - i,
        {
            if self.records[i].email == *email {
                return Some(i);
            }
            i = i + 1;
        }
        None
    }

    /// Creates the record of a new user and assigns its identity.
    ///
    /// Fails with `AlreadyExists`, and changes nothing, exactly when a record
    /// with this email exists. Either way the email is registered afterwards,
    /// and after a success the new record is what the email is found to have.
    pub fn create(&mut self, username: &str, email: &str, password_hash: EncodedHash) -> (r: Result<
        Identity,
        StoreError,
    >)
        requires
            old(self).wf(),
        ensures
            final(self).wf(),
            (final(self)@, r) == created(old(self)@, username@, email@, password_hash@),
            has_email(final(self)@, email@),
            r matches Ok(identity) ==> record_of(final(self)@, email@) == Some(
                Record { identity, username: username@, email: email@, password_hash: password_hash@ },
            ),
    {
        let email = email.to_owned();
        if self.position(&email).is_some() {
            return Err(StoreError::AlreadyExists);
        }
        let identity = Identity(self.records.len() as u128);
        let record = CredentialRecord { identity, username: username.to_owned(), email, password_hash };
        self.records.push(record);
        proof {
            assert(self@ =~= old(self)@.push(record@));
            lemma_second_registration_is_refused(
                old(self)@,
                email@,
                username@,
                password_hash@,
                username@,
                password_hash@,
            );
        }
        Ok(identity)
    }

    /// Finds the record with the email `email`.
    ///
    /// Fails with `NotFound` exactly when no record has this email. The record
    /// found is the only one with it.
    pub fn lookup_by_email(&self, email: &str) -> (r: Result<&CredentialRecord, StoreError>)
        requires
            self.wf(),
        ensures
            match r {
                Ok(record) => record_of(self@, email@) == Some(record@),
                Err(e) => e == StoreError::NotFound && record_of(self@, email@) is None,
            },
    {
        let email = email.to_owned();
        match self.position(&email) {
            Some(i) => {
                proof {
                    let j = choose|j: int| 0 <= j < self@.len() && #[trigger] self@[j].email == email@;
                    assert(j == i);
                }
                Ok(&self.records[i])
            },
            None => Err(StoreError::NotFound),
        }
    }
}

/// After an email has been registered, a second registration with it is
/// refused with `AlreadyExists`, changes no record, and leaves the record of
/// the first registration as what the email is found to have.
pub proof fn lemma_second_registration_is_refused(
    records: Seq<Record>,
    email: Seq<char>,
    username1: Seq<char>,
    hash1: Seq<char>,
    username2: Seq<char>,
    hash2: Seq<char>,
)
    requires
        well_formed(records),
        records.len() < u128::MAX,
        created(records, username1, email, hash1).1 is Ok,
    ensures
        ({
            let (after_first, first) = created(records, username1, email, hash1);
            let (after_second, second) = created(after_first, username2, email, hash2);
            &&& well_formed(after_first)
            &&& second == Err::<Identity, StoreError>(StoreError::AlreadyExists)
            &&& after_second == after_first
            &&& record_of(after_second, email) == Some(
                Record {
                    identity: first->Ok_0,
                    username: username1,
                    email,
                    password_hash: hash1,
                },
            )
        }),
{
    let (after_first, first) = created(records, username1, email, hash1);
    lemma_created_keeps_well_formed(records, username1, email, hash1);
    let last = records.len() as int;
    assert(after_first[last].email == email);
    assert(has_email(after_first, email));
    let j = choose|j: int| 0 <= j < after_first.len() && #[trigger] after_first[j].email == email;
    assert(j == last) by {
        if j < last {
            assert(after_first[j] == records[j]);
            assert(records[j].email == email);
        }
    }
}

/// Creating a record keeps the store well formed, and keeps every record that
/// was there.
pub proof fn lemma_created_keeps_well_formed(
    records: Seq<Record>,
    username: Seq<char>,
    email: Seq<char>,
    password_hash: Seq<char>,
)
    requires
        well_formed(records),
        records.len() < u128::MAX,
    ensures
        well_formed(created(records, username, email, password_hash).0),
        forall|i: int|
            0 <= i < records.len() ==> created(records, username, email, password_hash).0[i]
                == records[i],
{
    let after = created(records, username, email, password_hash).0;
    if !has_email(records, email) {
        assert forall|i: int, j: int| 0 <= i < j < after.len() implies (#[trigger] after[i]).email != (
        #[trigger] after[j]).email by {
            if j == records.len() {
                assert(after[i] == records[i]);
                assert(records[i].email != email);
            } else {
                assert(after[i] == records[i] && after[j] == records[j]);
            }
        }
    }
}

/// A request to create a record.
pub ghost struct Request {
    pub username: Seq<char>,
    pub email: Seq<char>,
    pub password_hash: Seq<char>,
}

/// The records after the requests `requests` have been served one after the
/// other, and the answer to each.
pub open spec fn created_all(records: Seq<Record>, requests: Seq<Request>) -> (
    Seq<Record>,
    Seq<Result<Identity, StoreError>>,
)
    decreases requests.len(),
{
    if requests.len() == 0 {
        (records, Seq::empty())
    } else {
        let (before, answers) = created_all(records, requests.drop_last());
        let last = requests.last();
        let (after, answer) = created(before, last.username, last.email, last.password_hash);
        (after, answers.push(answer))
    }
}

/// Whether request `i` is the first of `requests` with its email, and the
/// email is not in `records`.
pub open spec fn is_first_claim(records: Seq<Record>, requests: Seq<Request>, i: int) -> bool {
    &&& !has_email(records, requests[i].email)
    &&& forall|j: int| 0 <= j < i ==> (#[trigger] requests[j]).email != requests[i].email
}

/// Of requests served one after the other, in whatever order they arrive,
/// exactly those succeed that are the first to claim an email that was free.
/// Every other is refused with `AlreadyExists`, and the identities handed out
/// grow from one success to the next.
pub proof fn lemma_answers_in_sequence(records: Seq<Record>, requests: Seq<Request>)
    requires
        well_formed(records),
        records.len() + requests.len() <= u128::MAX,
    ensures
        ({
            let (after, answers) = created_all(records, requests);
            &&& well_formed(after)
            &&& answers.len() == requests.len()
            &&& records.len() <= after.len() <= records.len() + requests.len()
            &&& forall|e: Seq<char>|
                has_email(after, e) <==> has_email(records, e) || exists|j: int|
                    0 <= j < requests.len() && (#[trigger] requests[j]).email == e
            &&& forall|i: int|
                0 <= i < requests.len() ==> (#[trigger] answers[i] is Ok) == is_first_claim(
                    records,
                    requests,
                    i,
                )
            &&& forall|i: int|
                0 <= i < requests.len() && answers[i] is Err ==> #[trigger] answers[i] == Err::<
                    Identity,
                    StoreError,
                >(StoreError::AlreadyExists)
            &&& forall|i: int|
                0 <= i < requests.len() && answers[i] is Ok ==> records.len() <= (
                #[trigger] answers[i])->Ok_0.0 < after.len()
            &&& forall|i: int, j: int|
                0 <= i < j < requests.len() && answers[i] is Ok && answers[j] is Ok ==> (
                #[trigger] answers[i])->Ok_0.0 < (#[trigger] answers[j])->Ok_0.0
        }),
    decreases requests.len(),
{
    if requests.len() > 0 {
        let earlier = requests.drop_last();
        let last = requests.last();
        let n = earlier.len() as int;
        lemma_answers_in_sequence(records, earlier);
        let (before, answers_before) = created_all(records, earlier);
        let (after, answers) = created_all(records, requests);
        lemma_created_keeps_well_formed(before, last.username, last.email, last.password_hash);
        assert forall|j: int| 0 <= j < n implies #[trigger] earlier[j] == requests[j] by {}
        assert forall|i: int| 0 <= i < n implies #[trigger] answers[i] == answers_before[i] by {}
        assert forall|e: Seq<char>|
            has_email(after, e) <==> has_email(records, e) || exists|j: int|
                0 <= j < requests.len() && (#[trigger] requests[j]).email == e by {
            if has_email(after, e) {
                let k = choose|k: int| 0 <= k < after.len() && #[trigger] after[k].email == e;
                if k < before.len() {
                    assert(after[k] == before[k]);
                    assert(has_email(before, e));
                    if !has_email(records, e) {
                        let j = choose|j: int| 0 <= j < n && (#[trigger] earlier[j]).email == e;
                        assert(requests[j].email == e);
                    }
                } else {
                    assert(requests[n].email == e);
                }
            }
            if has_email(records, e) {
                assert(has_email(before, e));
                let k = choose|k: int| 0 <= k < before.len() && #[trigger] before[k].email == e;
                assert(after[k] == before[k]);
            }
            if exists|j: int| 0 <= j < requests.len() && (#[trigger] requests[j]).email == e {
                let j = choose|j: int| 0 <= j < requests.len() && (#[trigger] requests[j]).email == e;
                if j < n {
                    assert(earlier[j].email == e);
                    assert(has_email(before, e));
                    let k = choose|k: int| 0 <= k < before.len() && #[trigger] before[k].email == e;
                    assert(after[k] == before[k]);
                } else {
                    if has_email(before, e) {
                        let k = choose|k: int| 0 <= k < before.len() && #[trigger] before[k].email == e;
                        assert(after[k] == before[k]);
                    } else {
                        assert(after[before.len() as int].email == e);
                    }
                }
            }
        }
        assert forall|i: int| 0 <= i < requests.len() implies (#[trigger] answers[i] is Ok)
            == is_first_claim(records, requests, i) by {
            if i < n {
                assert(is_first_claim(records, earlier, i) == is_first_claim(records, requests, i)) by {
                    assert(earlier[i] == requests[i]);
                    if is_first_claim(records, earlier, i) {
                        assert forall|j: int| 0 <= j < i implies (#[trigger] requests[j]).email
                            != requests[i].email by {
                            assert(earlier[j] == requests[j]);
                        }
                    }
                    if is_first_claim(records, requests, i) {
                        assert forall|j: int| 0 <= j < i implies (#[trigger] earlier[j]).email
                            != earlier[i].email by {
                            assert(earlier[j] == requests[j]);
                        }
                    }
                }
            } else {
                if has_email(before, last.email) {
                    if !has_email(records, last.email) {
                        let j = choose|j: int| 0 <= j < n && (#[trigger] earlier[j]).email == last.email;
                        assert(requests[j].email == requests[i].email);
                    }
                } else {
                    assert forall|j: int| 0 <= j < i implies (#[trigger] requests[j]).email
                        != requests[i].email by {
                        assert(earlier[j].email == requests[j].email);
                    }
                }
            }
        }
    }
}

/// Requests with distinct emails, none of them registered, all succeed, in
/// whatever order they arrive, and no two get the same identity.
pub proof fn lemma_distinct_emails_all_succeed(records: Seq<Record>, requests: Seq<Request>)
    requires
        well_formed(records),
        records.len() + requests.len() <= u128::MAX,
        forall|i: int| 0 <= i < requests.len() ==> !has_email(records, (#[trigger] requests[i]).email),
        forall|i: int, j: int|
            0 <= i < j < requests.len() ==> (#[trigger] requests[i]).email != (
            #[trigger] requests[j]).email,
    ensures
        ({
            let answers = created_all(records, requests).1;
            &&& answers.len() == requests.len()
            &&& forall|i: int| 0 <= i < answers.len() ==> #[trigger] answers[i] is Ok
            &&& forall|i: int, j: int|
                0 <= i < j < answers.len() ==> (#[trigger] answers[i])->Ok_0 != (
                #[trigger] answers[j])->Ok_0
        }),
{
    lemma_answers_in_sequence(records, requests);
    let answers = created_all(records, requests).1;
    assert forall|i: int| 0 <= i < answers.len() implies #[trigger] answers[i] is Ok by {
        assert(is_first_claim(records, requests, i));
    }
}

/// Of requests that all claim one email that is not registered, the first to
/// arrive succeeds and every other is refused with `AlreadyExists`: never
/// none succeeds, and never more than one.
pub proof fn lemma_one_email_one_success(records: Seq<Record>, requests: Seq<Request>, email: Seq<char>)
    requires
        well_formed(records),
        records.len() + requests.len() <= u128::MAX,
        !has_email(records, email),
        requests.len() >= 1,
        forall|i: int| 0 <= i < requests.len() ==> (#[trigger] requests[i]).email == email,
    ensures
        ({
            let answers = created_all(records, requests).1;
            &&& answers.len() == requests.len()
            &&& answers[0] is Ok
            &&& forall|i: int|
                1 <= i < answers.len() ==> #[trigger] answers[i] == Err::<Identity, StoreError>(
                    StoreError::AlreadyExists,
                )
        }),
{
    lemma_answers_in_sequence(records, requests);
    let answers = created_all(records, requests).1;
    assert(is_first_claim(records, requests, 0));
    assert forall|i: int| 1 <= i < answers.len() implies #[trigger] answers[i] == Err::<
        Identity,
        StoreError,
    >(StoreError::AlreadyExists) by {
        assert(requests[0].email == requests[i].email);
        assert(!is_first_claim(records, requests, i));
        assert(!(answers[i] is Ok));
    }
}

} // verus!
