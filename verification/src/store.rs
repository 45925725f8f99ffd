//! Enrollment store: per-identity collections of descriptors with bounded
//! capacity and enrollment metadata.
//!
//! The store owns every profile; profiles are keyed by a unique user id.  All
//! mutation happens through the operations here — match operations only read.
//! Persistence is a caller-side effect: the caller encodes the store (see
//! [`crate::codec`]) and writes the bytes out after each mutation.
//!
//! Timestamps are plain integers (for instance seconds since an epoch) handed
//! in by the caller, so that every operation here is a pure function of its
//! arguments.

use vstd::prelude::*;
use vstd::string::StrSliceExecFns;
use crate::math::SCALE;
use crate::similarity::wf_descriptor;

verus! {

broadcast use vstd::seq_lib::group_to_multiset_ensures;

/// Mathematical value of a stored sample.
#[verifier::ext_equal]
pub ghost struct SampleView {
    pub descriptor: Seq<u64>,
    pub confidence: u64,
    pub timestamp: u64,
    pub sample_id: u64,
}

/// Mathematical value of a user profile.
#[verifier::ext_equal]
pub ghost struct ProfileView {
    pub user_id: Seq<char>,
    pub samples: Seq<SampleView>,
    pub enrollment_date: u64,
    pub last_authentication: Option<u64>,
    pub authentication_count: u64,
}

/// Mathematical value of the whole store.
#[verifier::ext_equal]
pub ghost struct StoreView {
    pub users: Seq<ProfileView>,
    pub version: u64,
    pub accuracy_threshold: u64,
    pub min_samples_per_user: usize,
    pub max_samples_per_user: usize,
    pub next_sample_id: u64,
}

/// One enrolled face sample: a unit-normalized fixed-point descriptor with
/// its enrollment confidence, capture timestamp and store-unique id.
#[derive(Debug, Clone, PartialEq, Eq)]
pub struct StoredFace {
    pub descriptor: Vec<u64>,
    pub confidence: u64,
    pub timestamp: u64,
    pub sample_id: u64,
}

impl View for StoredFace {
    type V = SampleView;

    open spec fn view(&self) -> SampleView {
        SampleView {
            descriptor: self.descriptor@,
            confidence: self.confidence,
            timestamp: self.timestamp,
            sample_id: self.sample_id,
        }
    }
}

/// One identity: an ordered, bounded collection of samples plus metadata.
#[derive(Debug, Clone, PartialEq, Eq)]
pub struct UserProfile {
    pub user_id: String,
    pub face_samples: Vec<StoredFace>,
    pub enrollment_date: u64,
    pub last_authentication: Option<u64>,
    pub authentication_count: u64,
}

/// The views of a sequence of samples.
pub open spec fn samples_view(s: Seq<StoredFace>) -> Seq<SampleView> {
    s.map_values(|f: StoredFace| f@)
}

impl View for UserProfile {
    type V = ProfileView;

    open spec fn view(&self) -> ProfileView {
        ProfileView {
            user_id: self.user_id@,
            samples: samples_view(self.face_samples@),
            enrollment_date: self.enrollment_date,
            last_authentication: self.last_authentication,
            authentication_count: self.authentication_count,
        }
    }
}

/// The views of a sequence of profiles.
pub open spec fn profiles_view(s: Seq<UserProfile>) -> Seq<ProfileView> {
    s.map_values(|p: UserProfile| p@)
}

/// The enrollment store.
#[derive(Debug, PartialEq)]
pub struct FaceDatabase {
    pub users: Vec<UserProfile>,
    pub version: u64,
    pub accuracy_threshold: u64,
    pub min_samples_per_user: usize,
    pub max_samples_per_user: usize,
    pub next_sample_id: u64,
}

impl View for FaceDatabase {
    type V = StoreView;

    open spec fn view(&self) -> StoreView {
        StoreView {
            users: profiles_view(self.users@),
            version: self.version,
            accuracy_threshold: self.accuracy_threshold,
            min_samples_per_user: self.min_samples_per_user,
            max_samples_per_user: self.max_samples_per_user,
            next_sample_id: self.next_sample_id,
        }
    }
}

/// A well-formed sample: descriptor entries and confidence are fixed-point
/// values in `[0, SCALE]`, and the sample id lies under the store's counter.
pub open spec fn sample_wf(s: SampleView, id_bound: u64) -> bool {
    &&& wf_descriptor(s.descriptor)
    &&& s.confidence <= SCALE
    &&& s.sample_id < id_bound
}

/// A well-formed profile (relative to the store's sample-id counter).
pub open spec fn profile_wf(p: ProfileView, id_bound: u64) -> bool {
    forall|k: int| 0 <= k < p.samples.len() ==> sample_wf(#[trigger] p.samples[k], id_bound)
}

impl StoreView {
    /// The store's invariant: user ids are unique keys, every sample is
    /// well-formed with an id below the counter, and the global threshold is
    /// a fixed-point value in `[0, 1]`.
    pub open spec fn wf(self) -> bool {
        &&& forall|i: int, j: int|
            0 <= i < j < self.users.len() ==> (#[trigger] self.users[i]).user_id != (
            #[trigger] self.users[j]).user_id
        &&& forall|i: int|
            0 <= i < self.users.len() ==> profile_wf(#[trigger] self.users[i], self.next_sample_id)
        &&& self.accuracy_threshold <= SCALE
    }

    /// Is some profile keyed by `uid`?
    pub open spec fn has_user(self, uid: Seq<char>) -> bool {
        exists|i: int| 0 <= i < self.users.len() && (#[trigger] self.users[i]).user_id == uid
    }

    /// The index of the profile keyed by `uid` (meaningful when unique).
    pub open spec fn user_idx(self, uid: Seq<char>) -> int {
        choose|i: int| 0 <= i < self.users.len() && (#[trigger] self.users[i]).user_id == uid
    }

    /// How many samples are enrolled for `uid` (zero for an unknown user).
    pub open spec fn sample_count(self, uid: Seq<char>) -> nat {
        if self.has_user(uid) {
            self.users[self.user_idx(uid)].samples.len()
        } else {
            0
        }
    }

    /// A user is enrolled exactly when its sample count has reached the
    /// store's minimum.
    pub open spec fn is_enrolled(self, uid: Seq<char>) -> bool {
        self.sample_count(uid) >= self.min_samples_per_user
    }
}

/// Under uniqueness of user ids, any matching index is `user_idx`.
pub proof fn lemma_user_idx_unique(v: StoreView, uid: Seq<char>, i: int)
    requires
        v.wf(),
        0 <= i < v.users.len(),
        v.users[i].user_id == uid,
    ensures
        v.has_user(uid),
        v.user_idx(uid) == i,
{
    assert(v.has_user(uid));
    let j = v.user_idx(uid);
    if i < j {
        assert(v.users[i].user_id != v.users[j].user_id);
    } else if j < i {
        assert(v.users[j].user_id != v.users[i].user_id);
    }
}

/// Equality of string slices by their character sequences.
pub fn str_eq(a: &str, b: &str) -> (r: bool)
    ensures
        r == (a@ == b@),
{
    let la = a.unicode_len();
    let lb = b.unicode_len();
    if la != lb {
        return false;
    }
    let mut i: usize = 0;
    while i < la
        invariant
            la == a@.len(),
            la == b@.len(),
            i <= la,
            forall|j: int| 0 <= j < i ==> a@[j] == b@[j],
        decreases la - i,
    {
        if a.get_char(i) != b.get_char(i) {
            return false;
        }
        i = i + 1;
    }
    proof {
        assert(a@ =~= b@);
    }
    true
}

/// Samples ordered by non-increasing confidence.
pub open spec fn sorted_desc(s: Seq<SampleView>) -> bool {
    forall|i: int, j: int|
        0 <= i <= j < s.len() ==> (#[trigger] s[i]).confidence >= (#[trigger] s[j]).confidence
}

/// `kept` holds exactly `k` of the samples of `all` — the highest-confidence
/// ones — sorted by confidence, highest first: every retained sample's
/// confidence is at least that of every discarded one.
pub open spec fn is_top_k_of(kept: Seq<SampleView>, all: Seq<SampleView>, k: nat) -> bool {
    &&& kept.len() == k
    &&& sorted_desc(kept)
    &&& kept.to_multiset().subset_of(all.to_multiset())
    &&& forall|x: SampleView, y: SampleView|
        #![trigger all.to_multiset().count(x), kept.to_multiset().count(y)]
        (all.to_multiset().count(x) > kept.to_multiset().count(x) && kept.to_multiset().count(y)
            > 0) ==> x.confidence <= y.confidence
}

/// Sample views commute with removing an element.
proof fn lemma_sv_remove(s: Seq<StoredFace>, i: int)
    requires
        0 <= i < s.len(),
    ensures
        samples_view(s.remove(i)) =~= samples_view(s).remove(i),
{
}

/// Sample views commute with inserting an element.
proof fn lemma_sv_insert(s: Seq<StoredFace>, i: int, f: StoredFace)
    requires
        0 <= i <= s.len(),
    ensures
        samples_view(s.insert(i, f)) =~= samples_view(s).insert(i, f@),
{
}

/// Sample views commute with appending an element.
proof fn lemma_sv_push(s: Seq<StoredFace>, f: StoredFace)
    ensures
        samples_view(s.push(f)) =~= samples_view(s).push(f@),
{
}

/// Sample views commute with taking a prefix.
proof fn lemma_sv_subrange(s: Seq<StoredFace>, i: int, j: int)
    requires
        0 <= i <= j <= s.len(),
    ensures
        samples_view(s.subrange(i, j)) =~= samples_view(s).subrange(i, j),
{
}

/// Sort samples by enrollment confidence, highest first.  The result is a
/// permutation of the input.
pub fn sort_samples_desc(v: &mut Vec<StoredFace>)
    ensures
        final(v)@.len() == old(v)@.len(),
        samples_view(final(v)@).to_multiset() == samples_view(old(v)@).to_multiset(),
        sorted_desc(samples_view(final(v)@)),
{
    broadcast use vstd::multiset::group_multiset_axioms;

    let n = v.len();
    let mut i: usize = 0;
    while i < n
        invariant
            n == v@.len(),
            i <= n,
            samples_view(v@).to_multiset() == samples_view(old(v)@).to_multiset(),
            forall|a: int, b: int|
                0 <= a <= b < i ==> (#[trigger] samples_view(v@)[a]).confidence >= (
                #[trigger] samples_view(v@)[b]).confidence,
            forall|a: int, b: int|
                0 <= a < i && i <= b < n ==> (#[trigger] samples_view(v@)[a]).confidence >= (
                #[trigger] samples_view(v@)[b]).confidence,
        decreases n - i,
    {
        let mut m: usize = i;
        let mut j: usize = i + 1;
        while j < n
            invariant
                n == v@.len(),
                i <= m < j <= n,
                forall|k: int|
                    i <= k < j ==> (#[trigger] samples_view(v@)[k]).confidence <= samples_view(
                        v@,
                    )[m as int].confidence,
            decreases n - j,
        {
            if v[j].confidence > v[m].confidence {
                m = j;
            }
            j = j + 1;
        }
        if m != i {
            let ghost before = v@;
            let x = v.remove(m);
            v.insert(i, x);
            proof {
                lemma_sv_remove(before, m as int);
                lemma_sv_insert(before.remove(m as int), i as int, x);
                assert(samples_view(v@) =~= samples_view(before).remove(m as int).insert(
                    i as int,
                    x@,
                ));
                let sb = samples_view(before);
                assert(sb.remove(m as int).insert(i as int, x@).to_multiset() == sb.to_multiset());
                assert(forall|b: int|
                    i < b <= m ==> #[trigger] samples_view(v@)[b] == sb[b - 1]);
                assert(forall|b: int| m < b < n ==> #[trigger] samples_view(v@)[b] == sb[b]);
                assert(forall|b: int| 0 <= b < i ==> #[trigger] samples_view(v@)[b] == sb[b]);
                assert(samples_view(v@)[i as int] == sb[m as int]);
            }
        }
        i = i + 1;
    }
}

/// Keeping a prefix of a sorted permutation keeps exactly the top `k`.
proof fn lemma_top_k(all: Seq<SampleView>, sorted: Seq<SampleView>, k: nat)
    requires
        sorted.to_multiset() == all.to_multiset(),
        sorted_desc(sorted),
        k <= sorted.len(),
    ensures
        is_top_k_of(sorted.take(k as int), all, k),
{
    broadcast use vstd::multiset::group_multiset_axioms;

    let kept = sorted.take(k as int);
    let dropped = sorted.skip(k as int);
    assert(sorted =~= kept + dropped);
    vstd::seq_lib::lemma_multiset_commutative(kept, dropped);
    assert(kept.to_multiset().subset_of(all.to_multiset()));
    assert forall|x: SampleView, y: SampleView|
        #![trigger all.to_multiset().count(x), kept.to_multiset().count(y)]
        (all.to_multiset().count(x) > kept.to_multiset().count(x) && kept.to_multiset().count(y)
            > 0) implies x.confidence <= y.confidence by {
        assert(dropped.to_multiset().count(x) > 0);
        assert(dropped.contains(x));
        assert(kept.contains(y));
        let di = choose|di: int| 0 <= di < dropped.len() && dropped[di] == x;
        let ki = choose|ki: int| 0 <= ki < kept.len() && kept[ki] == y;
        assert(sorted[k + di] == x);
        assert(sorted[ki] == y);
        assert(sorted[ki].confidence >= sorted[k + di].confidence);
    }
}

/// Aggregate counters over the store, as reported by `get_database_stats`.
#[derive(Debug, Clone, Copy, PartialEq, Eq)]
pub struct DatabaseStats {
    pub total_users: usize,
    pub enrolled_users: usize,
    pub total_samples: usize,
    pub total_authentications: u64,
    pub accuracy_threshold: u64,
    pub min_samples_per_user: usize,
}

/// How many profiles have reached the enrollment minimum.
pub open spec fn spec_enrolled_count(users: Seq<ProfileView>, min: int) -> nat
    decreases users.len(),
{
    if users.len() == 0 {
        0
    } else {
        spec_enrolled_count(users.drop_last(), min) + if users.last().samples.len() >= min {
            1nat
        } else {
            0nat
        }
    }
}

/// The total number of samples over all profiles.
pub open spec fn spec_total_samples(users: Seq<ProfileView>) -> nat
    decreases users.len(),
{
    if users.len() == 0 {
        0
    } else {
        spec_total_samples(users.drop_last()) + users.last().samples.len()
    }
}

/// The total number of recorded authentications over all profiles.
pub open spec fn spec_total_auths(users: Seq<ProfileView>) -> nat
    decreases users.len(),
{
    if users.len() == 0 {
        0
    } else {
        spec_total_auths(users.drop_last()) + users.last().authentication_count as nat
    }
}

/// All samples of all profiles, in store order.
pub open spec fn spec_all_samples(users: Seq<ProfileView>) -> Seq<SampleView>
    decreases users.len(),
{
    if users.len() == 0 {
        Seq::empty()
    } else {
        spec_all_samples(users.drop_last()) + users.last().samples
    }
}

/// Stepping the three prefix counters by one profile.
proof fn lemma_stats_take_step(users: Seq<ProfileView>, min: int, i: int)
    requires
        0 <= i < users.len(),
    ensures
        spec_enrolled_count(users.take(i + 1), min) == spec_enrolled_count(users.take(i), min)
            + if users[i].samples.len() >= min {
            1nat
        } else {
            0nat
        },
        spec_total_samples(users.take(i + 1)) == spec_total_samples(users.take(i)) + users[
            i
        ].samples.len(),
        spec_total_auths(users.take(i + 1)) == spec_total_auths(users.take(i)) + users[
            i
        ].authentication_count,
        spec_all_samples(users.take(i + 1)) == spec_all_samples(users.take(i)) + users[i].samples,
{
    assert(users.take(i + 1).drop_last() =~= users.take(i));
    assert(users.take(i + 1).last() == users[i]);
}

/// Prefix counters never exceed the whole sequence's counters.
proof fn lemma_stats_prefix_le(users: Seq<ProfileView>, min: int, i: int)
    requires
        0 <= i <= users.len(),
    ensures
        spec_total_samples(users.take(i)) <= spec_total_samples(users),
        spec_total_auths(users.take(i)) <= spec_total_auths(users),
    decreases users.len() - i,
{
    if i == users.len() {
        assert(users.take(i) =~= users);
    } else {
        lemma_stats_take_step(users, 0, i);
        lemma_stats_prefix_le(users, min, i + 1);
    }
}

/// An exact copy of a vector of fixed-point values.
fn copy_u64_vec(v: &Vec<u64>) -> (r: Vec<u64>)
    ensures
        r@ == v@,
{
    let mut r: Vec<u64> = Vec::new();
    let n = v.len();
    let mut i: usize = 0;
    while i < n
        invariant
            n == v@.len(),
            i <= n,
            r@ =~= v@.take(i as int),
        decreases n - i,
    {
        r.push(v[i]);
        proof {
            assert(r@ =~= v@.take(i as int + 1));
        }
        i = i + 1;
    }
    proof {
        assert(v@.take(n as int) =~= v@);
    }
    r
}

/// An exact copy of a stored sample.
fn copy_sample(f: &StoredFace) -> (r: StoredFace)
    ensures
        r@ == f@,
{
    StoredFace {
        descriptor: copy_u64_vec(&f.descriptor),
        confidence: f.confidence,
        timestamp: f.timestamp,
        sample_id: f.sample_id,
    }
}

/// The view of the sample that an `add_face_sample` call appends.
pub open spec fn new_sample_view(
    v0: StoreView,
    descriptor: Seq<u64>,
    confidence: u64,
    timestamp: u64,
) -> SampleView {
    SampleView { descriptor, confidence, timestamp, sample_id: v0.next_sample_id }
}

/// The profile created on a user's first sample.
pub open spec fn fresh_profile(uid: Seq<char>, timestamp: u64) -> ProfileView {
    ProfileView {
        user_id: uid,
        samples: Seq::empty(),
        enrollment_date: timestamp,
        last_authentication: None,
        authentication_count: 0,
    }
}

/// The user list that `add_face_sample` works on: the old list, extended by a
/// fresh profile when `uid` was not yet enrolled.
pub open spec fn add_base_users(v0: StoreView, uid: Seq<char>, timestamp: u64) -> Seq<
    ProfileView,
> {
    if v0.has_user(uid) {
        v0.users
    } else {
        v0.users.push(fresh_profile(uid, timestamp))
    }
}

/// The index of the profile that `add_face_sample` grows.
pub open spec fn add_idx(v0: StoreView, uid: Seq<char>) -> int {
    if v0.has_user(uid) {
        v0.user_idx(uid)
    } else {
        v0.users.len() as int
    }
}

/// How `optimize_database` rewrites one profile: untouched while within the
/// cap, otherwise trimmed to the `cap` highest-confidence samples.
pub open spec fn trimmed_to_cap(before: ProfileView, after: ProfileView, cap: usize) -> bool {
    if before.samples.len() > cap {
        &&& after == (ProfileView { samples: after.samples, ..before })
        &&& is_top_k_of(after.samples, before.samples, cap as nat)
    } else {
        after == before
    }
}

/// How many samples sit above the cap, over all profiles.
pub open spec fn spec_excess(users: Seq<ProfileView>, cap: int) -> nat
    decreases users.len(),
{
    if users.len() == 0 {
        0
    } else {
        spec_excess(users.drop_last(), cap) + if users.last().samples.len() > cap {
            (users.last().samples.len() - cap) as nat
        } else {
            0
        }
    }
}

/// Stepping the prefix excess by one profile.
proof fn lemma_excess_take_step(users: Seq<ProfileView>, cap: int, i: int)
    requires
        0 <= i < users.len(),
    ensures
        spec_excess(users.take(i + 1), cap) == spec_excess(users.take(i), cap) + if users[
            i
        ].samples.len() > cap {
            (users[i].samples.len() - cap) as nat
        } else {
            0
        },
{
    assert(users.take(i + 1).drop_last() =~= users.take(i));
    assert(users.take(i + 1).last() == users[i]);
}

/// A prefix never exceeds the whole sequence's excess.
proof fn lemma_excess_prefix_le(users: Seq<ProfileView>, cap: int, i: int)
    requires
        0 <= i <= users.len(),
    ensures
        spec_excess(users.take(i), cap) <= spec_excess(users, cap),
    decreases users.len() - i,
{
    if i == users.len() {
        assert(users.take(i) =~= users);
    } else {
        lemma_excess_take_step(users, cap, i);
        lemma_excess_prefix_le(users, cap, i + 1);
    }
}

/// Samples drawn from a well-formed pool are themselves well-formed.
proof fn lemma_kept_wf(kept: Seq<SampleView>, grown: Seq<SampleView>, bound: u64)
    requires
        kept.to_multiset().subset_of(grown.to_multiset()),
        forall|k: int| 0 <= k < grown.len() ==> sample_wf(#[trigger] grown[k], bound),
    ensures
        forall|k: int| 0 <= k < kept.len() ==> sample_wf(#[trigger] kept[k], bound),
{
    broadcast use vstd::multiset::group_multiset_axioms;

    assert forall|k: int| 0 <= k < kept.len() implies sample_wf(#[trigger] kept[k], bound) by {
        assert(kept.contains(kept[k]));
        assert(kept.to_multiset().count(kept[k]) > 0);
        assert(grown.to_multiset().count(kept[k]) > 0);
        assert(grown.contains(kept[k]));
        let j = choose|j: int| 0 <= j < grown.len() && grown[j] == kept[k];
        assert(sample_wf(grown[j], bound));
    }
}

impl FaceDatabase {
    /// A fresh, empty store with the default policy: threshold `0.85`,
    /// at least 3 samples to count as enrolled, at most 10 kept per user.
    pub fn new() -> (r: FaceDatabase)
        ensures
            r@.wf(),
            r@.users.len() == 0,
            r@.version == 2,
            r@.accuracy_threshold == 850000,
            r@.min_samples_per_user == 3,
            r@.max_samples_per_user == 10,
            r@.next_sample_id == 0,
    {
        FaceDatabase {
            users: Vec::new(),
            version: 2,
            accuracy_threshold: 850000,
            min_samples_per_user: 3,
            max_samples_per_user: 10,
            next_sample_id: 0,
        }
    }

    /// The index of the profile keyed by `user_id`, if any.
    pub fn find_user_index(&self, user_id: &str) -> (r: Option<usize>)
        ensures
            match r {
                Some(i) => i < self@.users.len() && self@.users[i as int].user_id == user_id@,
                None => !self@.has_user(user_id@),
            },
    {
        let n = self.users.len();
        let mut i: usize = 0;
        while i < n
            invariant
                n == self.users@.len(),
                i <= n,
                forall|j: int| 0 <= j < i ==> self@.users[j].user_id != user_id@,
            decreases n - i,
        {
            if str_eq(self.users[i].user_id.as_str(), user_id) {
                return Some(i);
            }
            i = i + 1;
        }
        None
    }

    /// Is `user_id` enrolled?  True exactly when the user's sample count has
    /// reached `min_samples_per_user`.
    pub fn is_user_enrolled(&self, user_id: &str) -> (r: bool)
        requires
            self@.wf(),
        ensures
            r == self@.is_enrolled(user_id@),
    {
        match self.find_user_index(user_id) {
            Some(i) => {
                proof {
                    lemma_user_idx_unique(self@, user_id@, i as int);
                }
                self.users[i].face_samples.len() >= self.min_samples_per_user
            },
            None => {
                proof {
                    assert(self@.sample_count(user_id@) == 0);
                }
                self.min_samples_per_user == 0
            },
        }
    }

    /// Current and required sample counts for `user_id`.
    pub fn get_enrollment_progress(&self, user_id: &str) -> (r: (usize, usize))
        requires
            self@.wf(),
        ensures
            r.0 == self@.sample_count(user_id@),
            r.1 == self@.min_samples_per_user,
    {
        match self.find_user_index(user_id) {
            Some(i) => {
                proof {
                    lemma_user_idx_unique(self@, user_id@, i as int);
                }
                (self.users[i].face_samples.len(), self.min_samples_per_user)
            },
            None => (0, self.min_samples_per_user),
        }
    }

    /// The profile keyed by `user_id`, if any.
    pub fn get_user_profile(&self, user_id: &str) -> (r: Option<&UserProfile>)
        requires
            self@.wf(),
        ensures
            match r {
                Some(p) => self@.has_user(user_id@) && p@ == self@.users[self@.user_idx(user_id@)],
                None => !self@.has_user(user_id@),
            },
    {
        match self.find_user_index(user_id) {
            Some(i) => {
                proof {
                    lemma_user_idx_unique(self@, user_id@, i as int);
                }
                Some(&self.users[i])
            },
            None => None,
        }
    }

    /// All profiles, in store order.
    pub fn get_all_users(&self) -> (r: &Vec<UserProfile>)
        ensures
            profiles_view(r@) == self@.users,
    {
        &self.users
    }

    /// Append a sample for `user_id`, creating the profile on first contact,
    /// and trim the profile to the `max_samples_per_user` highest-confidence
    /// samples when the cap is exceeded.  Returns the fresh sample id.
    ///
    /// The caller owns persistence: it should write the store out after this
    /// returns, and discard the in-memory store if that write fails.
    pub fn add_face_sample(
        &mut self,
        user_id: String,
        descriptor: Vec<u64>,
        confidence: u64,
        timestamp: u64,
    ) -> (sid: u64)
        requires
            old(self)@.wf(),
            wf_descriptor(descriptor@),
            confidence <= SCALE,
            old(self)@.next_sample_id < u64::MAX,
        ensures
            final(self)@.wf(),
            sid == old(self)@.next_sample_id,
            final(self)@.next_sample_id == old(self)@.next_sample_id + 1,
            final(self)@.version == old(self)@.version,
            final(self)@.accuracy_threshold == old(self)@.accuracy_threshold,
            final(self)@.min_samples_per_user == old(self)@.min_samples_per_user,
            final(self)@.max_samples_per_user == old(self)@.max_samples_per_user,
            ({
                let v0 = old(self)@;
                let base = add_base_users(v0, user_id@, timestamp);
                let idx = add_idx(v0, user_id@);
                let grown = base[idx].samples.push(new_sample_view(v0, descriptor@, confidence, timestamp));
                let kept = final(self)@.users[idx].samples;
                &&& final(self)@.users.len() == base.len()
                &&& forall|j: int|
                    0 <= j < base.len() && j != idx ==> final(self)@.users[j] == base[j]
                &&& final(self)@.users[idx] == (ProfileView { samples: kept, ..base[idx] })
                &&& grown.len() <= v0.max_samples_per_user ==> kept =~= grown
                &&& grown.len() > v0.max_samples_per_user ==> is_top_k_of(
                    kept,
                    grown,
                    v0.max_samples_per_user as nat,
                )
            }),
    {
        broadcast use vstd::multiset::group_multiset_axioms;

        let ghost v0 = self@;
        let ghost uid: Seq<char> = user_id@;
        let sid = self.next_sample_id;
        let sample = StoredFace { descriptor, confidence, timestamp, sample_id: sid };
        self.next_sample_id = sid + 1;
        let idx: usize = match self.find_user_index(user_id.as_str()) {
            Some(i) => {
                proof {
                    lemma_user_idx_unique(v0, uid, i as int);
                    assert(profiles_view(self.users@) =~= add_base_users(v0, uid, timestamp));
                }
                i
            },
            None => {
                let ghost users0 = self.users@;
                let p = UserProfile {
                    user_id,
                    face_samples: Vec::new(),
                    enrollment_date: timestamp,
                    last_authentication: None,
                    authentication_count: 0,
                };
                self.users.push(p);
                proof {
                    assert(profiles_view(self.users@) =~= add_base_users(v0, uid, timestamp)) by {
                        assert(samples_view(Seq::<StoredFace>::empty()) =~= Seq::<SampleView>::empty());
                        assert(profiles_view(users0.push(p)) =~= profiles_view(users0).push(p@));
                    }
                }
                self.users.len() - 1
            },
        };
        let ghost base = profiles_view(self.users@);
        let ghost users1 = self.users@;
        proof {
            assert(base == add_base_users(v0, uid, timestamp));
            assert(idx as int == add_idx(v0, uid));
            assert(base[idx as int].user_id == uid);
            assert(base.len() == users1.len());
        }
        let mut p = self.users.remove(idx);
        let ghost grown = base[idx as int].samples.push(new_sample_view(v0, sample.descriptor@, confidence, timestamp));
        proof {
            assert(p@ == base[idx as int]);
        }
        p.face_samples.push(sample);
        proof {
            lemma_sv_push(users1[idx as int].face_samples@, sample);
            assert(samples_view(p.face_samples@) =~= grown);
        }
        if p.face_samples.len() > self.max_samples_per_user {
            sort_samples_desc(&mut p.face_samples);
            let ghost sorted_faces = p.face_samples@;
            let ghost sorted = samples_view(sorted_faces);
            p.face_samples.truncate(self.max_samples_per_user);
            proof {
                lemma_sv_subrange(sorted_faces, 0, self.max_samples_per_user as int);
                lemma_top_k(grown, sorted, self.max_samples_per_user as nat);
                assert(samples_view(p.face_samples@) =~= sorted.take(
                    self.max_samples_per_user as int,
                ));
            }
        }
        let ghost kept = samples_view(p.face_samples@);
        let ghost users2 = self.users@;
        self.users.insert(idx, p);
        proof {
            assert(self.users@ =~= users1.update(idx as int, p));
            assert(self@.users =~= base.update(idx as int, p@));
            assert(p@ =~= (ProfileView { samples: kept, ..base[idx as int] }));
            // Well-formedness of the final store.
            let vf = self@;
            let bound = self.next_sample_id;
            assert forall|k: int| 0 <= k < grown.len() implies sample_wf(
                #[trigger] grown[k],
                bound,
            ) by {
                if k < grown.len() - 1 {
                    assert(grown[k] == base[idx as int].samples[k]);
                    if v0.has_user(uid) {
                        assert(profile_wf(v0.users[idx as int], v0.next_sample_id));
                    }
                }
            }
            lemma_kept_wf(kept, grown, bound);
            assert forall|i: int|
                0 <= i < vf.users.len() implies profile_wf(#[trigger] vf.users[i], bound) by {
                if i != idx as int {
                    assert(vf.users[i] == base[i]);
                    if v0.has_user(uid) || i < v0.users.len() {
                        assert(base[i] == v0.users[i]);
                        assert(profile_wf(v0.users[i], v0.next_sample_id));
                        assert forall|k: int|
                            0 <= k < base[i].samples.len() implies sample_wf(
                            #[trigger] base[i].samples[k],
                            bound,
                        ) by {
                            assert(sample_wf(v0.users[i].samples[k], v0.next_sample_id));
                        }
                    }
                }
            }
            assert(vf.wf());
        }
        sid
    }

    /// Record a successful authentication for `user_id` at time `now`: set the
    /// last-authentication timestamp and bump the counter.  Unknown users are
    /// left untouched.
    pub fn update_authentication_stats(&mut self, user_id: &str, now: u64)
        requires
            old(self)@.wf(),
            old(self)@.has_user(user_id@) ==> old(self)@.users[old(self)@.user_idx(
                user_id@,
            )].authentication_count < u64::MAX,
        ensures
            final(self)@.wf(),
            old(self)@.has_user(user_id@) ==> final(self)@.users =~= old(self)@.users.update(
                old(self)@.user_idx(user_id@),
                ProfileView {
                    last_authentication: Some(now),
                    authentication_count: (old(self)@.users[old(self)@.user_idx(
                        user_id@,
                    )].authentication_count + 1) as u64,
                    ..old(self)@.users[old(self)@.user_idx(user_id@)]
                },
            ),
            !old(self)@.has_user(user_id@) ==> final(self)@ == old(self)@,
            final(self)@.version == old(self)@.version,
            final(self)@.accuracy_threshold == old(self)@.accuracy_threshold,
            final(self)@.min_samples_per_user == old(self)@.min_samples_per_user,
            final(self)@.max_samples_per_user == old(self)@.max_samples_per_user,
            final(self)@.next_sample_id == old(self)@.next_sample_id,
    {
        let idx = self.find_user_index(user_id);
        match idx {
            Some(i) => {
                proof {
                    lemma_user_idx_unique(old(self)@, user_id@, i as int);
                }
                let ghost before = self@;
                let mut p = self.users.remove(i);
                p.last_authentication = Some(now);
                p.authentication_count = p.authentication_count + 1;
                self.users.insert(i, p);
                proof {
                    assert(self.users@ =~= old(self).users@.update(i as int, self.users@[i as int]));
                    assert(self@.users =~= before.users.update(
                        i as int,
                        ProfileView {
                            last_authentication: Some(now),
                            authentication_count: (before.users[i as int].authentication_count
                                + 1) as u64,
                            ..before.users[i as int]
                        },
                    ));
                }
            },
            None => {},
        }
    }

    /// Remove the profile keyed by `user_id`; report whether one was there.
    pub fn remove_user(&mut self, user_id: &str) -> (r: bool)
        requires
            old(self)@.wf(),
        ensures
            final(self)@.wf(),
            r == old(self)@.has_user(user_id@),
            r ==> final(self)@.users =~= old(self)@.users.remove(old(self)@.user_idx(user_id@)),
            !r ==> final(self)@ == old(self)@,
            final(self)@.version == old(self)@.version,
            final(self)@.accuracy_threshold == old(self)@.accuracy_threshold,
            final(self)@.min_samples_per_user == old(self)@.min_samples_per_user,
            final(self)@.max_samples_per_user == old(self)@.max_samples_per_user,
            final(self)@.next_sample_id == old(self)@.next_sample_id,
    {
        match self.find_user_index(user_id) {
            Some(i) => {
                proof {
                    lemma_user_idx_unique(old(self)@, user_id@, i as int);
                }
                let _ = self.users.remove(i);
                proof {
                    assert(self@.users =~= profiles_view(old(self).users@).remove(i as int));
                }
                true
            },
            None => false,
        }
    }

    /// Trim every profile that exceeds `max_samples_per_user` (for instance
    /// after the cap was lowered) to its highest-confidence samples; returns
    /// how many samples were removed in total.
    pub fn optimize_database(&mut self) -> (removed: usize)
        requires
            old(self)@.wf(),
            spec_excess(old(self)@.users, old(self)@.max_samples_per_user as int) <= usize::MAX,
        ensures
            final(self)@.wf(),
            removed == spec_excess(old(self)@.users, old(self)@.max_samples_per_user as int),
            final(self)@.users.len() == old(self)@.users.len(),
            forall|i: int|
                0 <= i < old(self)@.users.len() ==> trimmed_to_cap(
                    old(self)@.users[i],
                    #[trigger] final(self)@.users[i],
                    old(self)@.max_samples_per_user,
                ),
            final(self)@.version == old(self)@.version,
            final(self)@.accuracy_threshold == old(self)@.accuracy_threshold,
            final(self)@.min_samples_per_user == old(self)@.min_samples_per_user,
            final(self)@.max_samples_per_user == old(self)@.max_samples_per_user,
            final(self)@.next_sample_id == old(self)@.next_sample_id,
    {
        broadcast use vstd::multiset::group_multiset_axioms;

        let ghost v0 = self@;
        let ghost max = self.max_samples_per_user as int;
        let mut removed: usize = 0;
        let n = self.users.len();
        let mut i: usize = 0;
        while i < n
            invariant
                self@.users.len() == n,
                n == v0.users.len(),
                i <= n,
                self@.version == v0.version,
                self@.accuracy_threshold == v0.accuracy_threshold,
                self@.min_samples_per_user == v0.min_samples_per_user,
                self@.max_samples_per_user == v0.max_samples_per_user,
                self@.next_sample_id == v0.next_sample_id,
                max == v0.max_samples_per_user as int,
                v0.wf(),
                spec_excess(v0.users, max) <= usize::MAX,
                removed == spec_excess(v0.users.take(i as int), max),
                forall|j: int| i <= j < n ==> self@.users[j] == v0.users[j],
                forall|j: int|
                    0 <= j < i ==> trimmed_to_cap(
                        v0.users[j],
                        #[trigger] self@.users[j],
                        v0.max_samples_per_user,
                    ),
                forall|j: int|
                    0 <= j < n ==> (#[trigger] self@.users[j]).user_id == v0.users[j].user_id,
                forall|j: int|
                    0 <= j < n ==> profile_wf(#[trigger] self@.users[j], v0.next_sample_id),
            decreases n - i,
        {
            proof {
                lemma_excess_take_step(v0.users, max, i as int);
                lemma_excess_prefix_le(v0.users, max, i as int + 1);
            }
            let ghost users1 = self.users@;
            let ghost base = self@.users;
            if self.users[i].face_samples.len() > self.max_samples_per_user {
                let mut p = self.users.remove(i);
                let ghost grown = samples_view(p.face_samples@);
                let excess = p.face_samples.len() - self.max_samples_per_user;
                sort_samples_desc(&mut p.face_samples);
                let ghost sorted_faces = p.face_samples@;
                let ghost sorted = samples_view(sorted_faces);
                p.face_samples.truncate(self.max_samples_per_user);
                proof {
                    lemma_sv_subrange(sorted_faces, 0, self.max_samples_per_user as int);
                    lemma_top_k(grown, sorted, self.max_samples_per_user as nat);
                    assert(samples_view(p.face_samples@) =~= sorted.take(
                        self.max_samples_per_user as int,
                    ));
                }
                let ghost kept = samples_view(p.face_samples@);
                self.users.insert(i, p);
                removed = removed + excess;
                proof {
                    assert(self.users@ =~= users1.update(i as int, p));
                    assert(self@.users =~= base.update(i as int, p@));
                    assert(p@ =~= (ProfileView { samples: kept, ..base[i as int] }));
                    lemma_kept_wf(kept, grown, v0.next_sample_id);
                    assert(trimmed_to_cap(v0.users[i as int], p@, v0.max_samples_per_user));
                }
            } else {
                proof {
                    assert(trimmed_to_cap(
                        v0.users[i as int],
                        self@.users[i as int],
                        v0.max_samples_per_user,
                    ));
                }
            }
            i = i + 1;
        }
        proof {
            assert(v0.users.take(n as int) =~= v0.users);
            let vf = self@;
            assert forall|i2: int, j2: int|
                0 <= i2 < j2 < vf.users.len() implies (#[trigger] vf.users[i2]).user_id != (
            #[trigger] vf.users[j2]).user_id by {
                assert(v0.users[i2].user_id != v0.users[j2].user_id);
            }
            assert(vf.wf());
        }
        removed
    }


    /// Decide the store invariant at run time: exactly `self@.wf()`.
    ///
    /// A store decoded from bytes of unknown origin can be admitted to the
    /// mutating and matching operations only after this check passes.
    pub fn check_well_formed(&self) -> (r: bool)
        ensures
            r == self@.wf(),
    {
        let ghost v = self@;
        if self.accuracy_threshold > SCALE {
            return false;
        }
        let n = self.users.len();
        let mut i: usize = 0;
        while i < n
            invariant
                v == self@,
                n == v.users.len(),
                i <= n,
                forall|a: int, b: int|
                    0 <= a < b < n && a < i ==> (#[trigger] v.users[a]).user_id != (
                    #[trigger] v.users[b]).user_id,
                forall|a: int|
                    0 <= a < i ==> profile_wf(#[trigger] v.users[a], v.next_sample_id),
            decreases n - i,
        {
            let mut j: usize = i + 1;
            while j < n
                invariant
                    v == self@,
                    n == v.users.len(),
                    i < n,
                    i < j <= n,
                    forall|b: int| i < b < j ==> v.users[i as int].user_id != (
                    #[trigger] v.users[b]).user_id,
                decreases n - j,
            {
                if str_eq(self.users[i].user_id.as_str(), self.users[j].user_id.as_str()) {
                    proof {
                        assert(v.users[i as int].user_id == v.users[j as int].user_id);
                        assert(!v.wf());
                    }
                    return false;
                }
                j = j + 1;
            }
            let m = self.users[i].face_samples.len();
            let mut k: usize = 0;
            while k < m
                invariant
                    v == self@,
                    n == v.users.len(),
                    i < n,
                    m == v.users[i as int].samples.len(),
                    k <= m,
                    forall|c: int|
                        0 <= c < k ==> sample_wf(
                            #[trigger] v.users[i as int].samples[c],
                            v.next_sample_id,
                        ),
                decreases m - k,
            {
                let f = &self.users[i].face_samples[k];
                if f.confidence > SCALE || f.sample_id >= self.next_sample_id {
                    proof {
                        assert(!sample_wf(v.users[i as int].samples[k as int], v.next_sample_id));
                        assert(!profile_wf(v.users[i as int], v.next_sample_id));
                    }
                    return false;
                }
                let dn = f.descriptor.len();
                let mut t: usize = 0;
                while t < dn
                    invariant
                        v == self@,
                        n == v.users.len(),
                        i < n,
                        m == v.users[i as int].samples.len(),
                        k < m,
                        dn == v.users[i as int].samples[k as int].descriptor.len(),
                        t <= dn,
                        f == &self.users@[i as int].face_samples@[k as int],
                        f.confidence <= SCALE,
                        f.sample_id < v.next_sample_id,
                        forall|d: int|
                            0 <= d < t ==> (#[trigger] v.users[i as int].samples[k
                                as int].descriptor[d]) <= SCALE,
                    decreases dn - t,
                {
                    if f.descriptor[t] > SCALE {
                        proof {
                            assert(!wf_descriptor(v.users[i as int].samples[k as int].descriptor));
                            assert(!sample_wf(
                                v.users[i as int].samples[k as int],
                                v.next_sample_id,
                            ));
                            assert(!profile_wf(v.users[i as int], v.next_sample_id));
                        }
                        return false;
                    }
                    t = t + 1;
                }
                proof {
                    assert(wf_descriptor(v.users[i as int].samples[k as int].descriptor));
                    assert(sample_wf(v.users[i as int].samples[k as int], v.next_sample_id));
                }
                k = k + 1;
            }
            proof {
                assert(profile_wf(v.users[i as int], v.next_sample_id));
            }
            i = i + 1;
        }
        proof {
            assert(v.wf());
        }
        true
    }

    /// Aggregate counters over the whole store.
    pub fn get_database_stats(&self) -> (r: DatabaseStats)
        requires
            spec_total_samples(self@.users) <= usize::MAX,
            spec_total_auths(self@.users) <= u64::MAX,
        ensures
            r.total_users == self@.users.len(),
            r.enrolled_users == spec_enrolled_count(
                self@.users,
                self@.min_samples_per_user as int,
            ),
            r.enrolled_users <= r.total_users,
            r.total_samples == spec_total_samples(self@.users),
            r.total_authentications == spec_total_auths(self@.users),
            r.accuracy_threshold == self@.accuracy_threshold,
            r.min_samples_per_user == self@.min_samples_per_user,
    {
        let ghost v = self@;
        let ghost min = self.min_samples_per_user as int;
        let n = self.users.len();
        let mut enrolled: usize = 0;
        let mut samples: usize = 0;
        let mut auths: u64 = 0;
        let mut i: usize = 0;
        while i < n
            invariant
                n == v.users.len(),
                v == self@,
                min == v.min_samples_per_user as int,
                i <= n,
                spec_total_samples(v.users) <= usize::MAX,
                spec_total_auths(v.users) <= u64::MAX,
                enrolled == spec_enrolled_count(v.users.take(i as int), min),
                samples == spec_total_samples(v.users.take(i as int)),
                auths == spec_total_auths(v.users.take(i as int)),
                enrolled <= i,
            decreases n - i,
        {
            proof {
                lemma_stats_take_step(v.users, min, i as int);
                lemma_stats_prefix_le(v.users, min, i as int + 1);
            }
            if self.users[i].face_samples.len() >= self.min_samples_per_user {
                enrolled = enrolled + 1;
            }
            samples = samples + self.users[i].face_samples.len();
            auths = auths + self.users[i].authentication_count;
            i = i + 1;
        }
        proof {
            assert(v.users.take(n as int) =~= v.users);
        }
        DatabaseStats {
            total_users: n,
            enrolled_users: enrolled,
            total_samples: samples,
            total_authentications: auths,
            accuracy_threshold: self.accuracy_threshold,
            min_samples_per_user: self.min_samples_per_user,
        }
    }

    /// Every sample of every profile, copied out in store order.
    pub fn get_all_faces(&self) -> (r: Vec<StoredFace>)
        ensures
            samples_view(r@) == spec_all_samples(self@.users),
    {
        let ghost v = self@;
        let mut out: Vec<StoredFace> = Vec::new();
        let n = self.users.len();
        let mut i: usize = 0;
        while i < n
            invariant
                n == v.users.len(),
                v == self@,
                i <= n,
                samples_view(out@) =~= spec_all_samples(v.users.take(i as int)),
            decreases n - i,
        {
            let ghost acc0 = samples_view(out@);
            let m = self.users[i].face_samples.len();
            let mut k: usize = 0;
            while k < m
                invariant
                    n == v.users.len(),
                    v == self@,
                    i < n,
                    m == v.users[i as int].samples.len(),
                    k <= m,
                    samples_view(out@) =~= acc0 + v.users[i as int].samples.take(k as int),
                decreases m - k,
            {
                let ghost before = out@;
                let f = copy_sample(&self.users[i].face_samples[k]);
                out.push(f);
                proof {
                    lemma_sv_push(before, f);
                    assert(samples_view(out@) =~= acc0 + v.users[i as int].samples.take(
                        k as int + 1,
                    ));
                }
                k = k + 1;
            }
            proof {
                lemma_stats_take_step(v.users, 0, i as int);
                assert(v.users[i as int].samples.take(m as int) =~= v.users[i as int].samples);
                assert(samples_view(out@) =~= spec_all_samples(v.users.take(i as int + 1)));
            }
            i = i + 1;
        }
        proof {
            assert(v.users.take(n as int) =~= v.users);
        }
        out
    }

    /// Forget every profile; the policy fields are kept.
    pub fn clear(&mut self)
        requires
            old(self)@.wf(),
        ensures
            final(self)@.wf(),
            final(self)@.users.len() == 0,
            final(self)@ == (StoreView { users: Seq::empty(), ..old(self)@ }),
    {
        self.users.clear();
        proof {
            assert(self@.users =~= Seq::<ProfileView>::empty());
        }
    }
}

} // verus!
