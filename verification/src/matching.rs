//! Match engine: searching the store for the best identity and computing the
//! per-user adaptive acceptance threshold.
//!
//! The search is deterministic: per-user scores aggregate each sample's
//! similarity, and exact ties between users are broken by ascending user id.

use vstd::prelude::*;
use vstd::string::StrSliceExecFns;
use crate::math::SCALE;
use crate::similarity::{compute_similarity, min_i, spec_similarity, wf_descriptor};
use crate::store::{
    lemma_user_idx_unique, profile_wf, sample_wf, FaceDatabase, ProfileView, SampleView,
    StoreView, UserProfile,
};

verus! {

/// The larger of two mathematical integers.
pub open spec fn max_i(x: int, y: int) -> int {
    if x < y {
        y
    } else {
        x
    }
}

/// Strict lexicographic order on character sequences, by code point.
pub open spec fn lex_lt(a: Seq<char>, b: Seq<char>) -> bool
    decreases a.len(),
{
    if b.len() == 0 {
        false
    } else if a.len() == 0 {
        true
    } else if (a[0] as u32) < (b[0] as u32) {
        true
    } else if (a[0] as u32) > (b[0] as u32) {
        false
    } else {
        lex_lt(a.drop_first(), b.drop_first())
    }
}

/// Lexicographic order, allowing equality.
pub open spec fn lex_le(a: Seq<char>, b: Seq<char>) -> bool {
    lex_lt(a, b) || a == b
}

/// Lexicographic order is total: two sequences are ordered or equal.
pub proof fn lemma_lex_total(a: Seq<char>, b: Seq<char>)
    ensures
        lex_lt(a, b) || lex_lt(b, a) || a == b,
    decreases a.len(),
{
    if a.len() == 0 && b.len() == 0 {
        assert(a =~= b);
    } else if a.len() > 0 && b.len() > 0 {
        if (a[0] as u32) == (b[0] as u32) {
            lemma_lex_total(a.drop_first(), b.drop_first());
            if a.drop_first() =~= b.drop_first() {
                lemma_char_injective(a[0], b[0]);
                assert forall|k: int| 0 <= k < a.len() implies a[k] == b[k] by {
                    if k > 0 {
                        assert(a[k] == a.drop_first()[k - 1]);
                        assert(b[k] == b.drop_first()[k - 1]);
                    }
                }
                assert(a =~= b);
            }
        }
    }
}

/// Distinct characters have distinct code points.
proof fn lemma_char_injective(c1: char, c2: char)
    requires
        c1 as u32 == c2 as u32,
    ensures
        c1 == c2,
{
}

/// Strict lexicographic order is transitive.
pub proof fn lemma_lex_lt_trans(a: Seq<char>, b: Seq<char>, c: Seq<char>)
    requires
        lex_lt(a, b),
        lex_lt(b, c),
    ensures
        lex_lt(a, c),
    decreases a.len(),
{
    if a.len() > 0 && b.len() > 0 && c.len() > 0 {
        if (a[0] as u32) == (b[0] as u32) && (b[0] as u32) == (c[0] as u32) {
            lemma_lex_lt_trans(a.drop_first(), b.drop_first(), c.drop_first());
        }
    }
}

/// Strict lexicographic comparison of string slices, by code point.
pub fn str_lt(a: &str, b: &str) -> (r: bool)
    ensures
        r == lex_lt(a@, b@),
{
    let la = a.unicode_len();
    let lb = b.unicode_len();
    let mut i: usize = 0;
    proof {
        assert(a@.skip(0) =~= a@);
        assert(b@.skip(0) =~= b@);
    }
    while i < la && i < lb
        invariant
            la == a@.len(),
            lb == b@.len(),
            i <= la,
            i <= lb,
            lex_lt(a@, b@) == lex_lt(a@.skip(i as int), b@.skip(i as int)),
        decreases la - i,
    {
        let ca = a.get_char(i);
        let cb = b.get_char(i);
        proof {
            assert(a@.skip(i as int)[0] == a@[i as int]);
            assert(b@.skip(i as int)[0] == b@[i as int]);
            assert(a@.skip(i as int).drop_first() =~= a@.skip(i as int + 1));
            assert(b@.skip(i as int).drop_first() =~= b@.skip(i as int + 1));
        }
        if (ca as u32) < (cb as u32) {
            return true;
        }
        if (ca as u32) > (cb as u32) {
            return false;
        }
        i = i + 1;
    }
    proof {
        if i < lb {
            assert(a@.skip(i as int).len() == 0);
            assert(lex_lt(a@.skip(i as int), b@.skip(i as int)));
        } else {
            assert(b@.skip(i as int).len() == 0);
            assert(!lex_lt(a@.skip(i as int), b@.skip(i as int)));
        }
    }
    i < lb
}

/// Sum of a profile's enrollment confidences.
pub open spec fn spec_conf_sum(samples: Seq<SampleView>) -> nat
    decreases samples.len(),
{
    if samples.len() == 0 {
        0
    } else {
        spec_conf_sum(samples.drop_last()) + samples.last().confidence as nat
    }
}

/// The adaptive acceptance threshold for a profile with `n` samples whose
/// average enrollment confidence is `avg` (fixed point): the global base is
/// lowered by a sample bonus (up to `0.10`) and a confidence bonus
/// (`0.20 * max(avg - 0.70, 0)`), but never below `0.70`.
pub open spec fn spec_adaptive_threshold(base: u64, n: nat, avg: int) -> int {
    let sample_bonus = min_i(n as int * 100000, 100000);
    let confidence_bonus = if avg > 700000 {
        (avg - 700000) / 5
    } else {
        0
    };
    max_i(base - sample_bonus - confidence_bonus, 700000)
}

/// The threshold that `adaptive_threshold` reports for `uid`: the adaptive
/// formula for an enrolled user, the raw global threshold for an unknown one.
pub open spec fn spec_user_threshold(v: StoreView, uid: Seq<char>) -> int {
    if v.has_user(uid) {
        let samples = v.users[v.user_idx(uid)].samples;
        let n = samples.len();
        let avg = if n == 0 {
            0
        } else {
            spec_conf_sum(samples) as int / n as int
        };
        spec_adaptive_threshold(v.accuracy_threshold, n, avg)
    } else {
        v.accuracy_threshold as int
    }
}

/// The adaptive threshold never drops below the fixed-point `0.70`.
pub proof fn lemma_threshold_floor(base: u64, n: nat, avg: int)
    ensures
        spec_adaptive_threshold(base, n, avg) >= 700000,
{
}

/// The adaptive threshold is non-increasing in the sample count and in the
/// average enrollment confidence.
pub proof fn lemma_threshold_monotone(base: u64, n1: nat, avg1: int, n2: nat, avg2: int)
    requires
        n1 <= n2,
        avg1 <= avg2,
    ensures
        spec_adaptive_threshold(base, n2, avg2) <= spec_adaptive_threshold(base, n1, avg1),
{
    assert(n1 as int * 100000 <= n2 as int * 100000);
    if avg1 > 700000 {
        vstd::arithmetic::div_mod::lemma_div_is_ordered(avg1 - 700000, avg2 - 700000, 5);
    } else if avg2 > 700000 {
        vstd::arithmetic::div_mod::lemma_div_is_ordered(0, avg2 - 700000, 5);
    }
}

/// Per-sample similarities of a query against a profile.
pub open spec fn sims_of(p: ProfileView, q: Seq<u64>) -> Seq<int> {
    Seq::new(p.samples.len(), |k: int| spec_similarity(q, p.samples[k].descriptor))
}

/// Largest entry (zero for an empty sequence).
pub open spec fn max_seq(s: Seq<int>) -> int
    decreases s.len(),
{
    if s.len() == 0 {
        0
    } else if s.len() == 1 {
        s[0]
    } else {
        max_i(max_seq(s.drop_last()), s.last())
    }
}

/// Smallest entry (zero for an empty sequence).
pub open spec fn min_seq(s: Seq<int>) -> int
    decreases s.len(),
{
    if s.len() == 0 {
        0
    } else if s.len() == 1 {
        s[0]
    } else {
        min_i(min_seq(s.drop_last()), s.last())
    }
}

/// Sum of the entries.
pub open spec fn sum_seq(s: Seq<int>) -> int
    decreases s.len(),
{
    if s.len() == 0 {
        0
    } else {
        sum_seq(s.drop_last()) + s.last()
    }
}

/// A profile's weighted score against a query, favoring both peak
/// resemblance and consistency:
/// `0.4 * max + 0.4 * mean + 0.2 * min` of the per-sample similarities,
/// computed in fixed point as a single floor division.
pub open spec fn spec_user_score(p: ProfileView, q: Seq<u64>) -> int {
    let sims = sims_of(p, q);
    let n = p.samples.len() as int;
    (2 * (n * max_seq(sims)) + 2 * sum_seq(sims) + n * min_seq(sims)) / (5 * n)
}

/// Stepping the prefix confidence sum by one sample.
proof fn lemma_conf_sum_take_step(s: Seq<SampleView>, k: int)
    requires
        0 <= k < s.len(),
    ensures
        spec_conf_sum(s.take(k + 1)) == spec_conf_sum(s.take(k)) + s[k].confidence,
{
    assert(s.take(k + 1).drop_last() =~= s.take(k));
    assert(s.take(k + 1).last() == s[k]);
}

/// Stepping the prefix score aggregates by one similarity.
proof fn lemma_agg_take_step(s: Seq<int>, k: int)
    requires
        1 <= k < s.len(),
    ensures
        max_seq(s.take(k + 1)) == max_i(max_seq(s.take(k)), s[k]),
        min_seq(s.take(k + 1)) == min_i(min_seq(s.take(k)), s[k]),
        sum_seq(s.take(k + 1)) == sum_seq(s.take(k)) + s[k],
{
    assert(s.take(k + 1).drop_last() =~= s.take(k));
    assert(s.take(k + 1).last() == s[k]);
}

/// The weighted score of one profile against a query, exactly
/// `spec_user_score`.
fn user_score(p: &UserProfile, q: &[u64]) -> (r: u64)
    requires
        p@.samples.len() > 0,
        wf_descriptor(q@),
        forall|k: int|
            0 <= k < p@.samples.len() ==> wf_descriptor((#[trigger] p@.samples[k]).descriptor),
    ensures
        r == spec_user_score(p@, q@),
        r <= SCALE,
{
    let ghost sims = sims_of(p@, q@);
    let n = p.face_samples.len();
    proof {
        assert(wf_descriptor(p@.samples[0].descriptor));
    }
    let s0 = compute_similarity(q, p.face_samples[0].descriptor.as_slice());
    let mut mx: u64 = s0;
    let mut mn: u64 = s0;
    let mut sum: u128 = s0 as u128;
    let mut k: usize = 1;
    proof {
        let t1 = sims.take(1);
        assert(t1.len() == 1 && t1[0] == sims[0]);
        assert(t1.drop_last() =~= Seq::<int>::empty());
        assert(sum_seq(t1.drop_last()) == 0);
        assert(sum_seq(t1) == sims[0]);
        assert(max_seq(t1) == sims[0]);
        assert(min_seq(t1) == sims[0]);
        assert(sims[0] == spec_similarity(q@, p@.samples[0].descriptor));
    }
    while k < n
        invariant
            n == p@.samples.len(),
            sims == sims_of(p@, q@),
            wf_descriptor(q@),
            forall|j: int|
                0 <= j < p@.samples.len() ==> wf_descriptor((#[trigger] p@.samples[j]).descriptor),
            1 <= k <= n,
            mx as int == max_seq(sims.take(k as int)),
            mn as int == min_seq(sims.take(k as int)),
            sum as int == sum_seq(sims.take(k as int)),
            mx <= SCALE,
            mn <= SCALE,
            sum <= (k as int) * 1000000,
        decreases n - k,
    {
        proof {
            assert(wf_descriptor(p@.samples[k as int].descriptor));
        }
        let s = compute_similarity(q, p.face_samples[k].descriptor.as_slice());
        proof {
            lemma_agg_take_step(sims, k as int);
            assert(sims[k as int] == spec_similarity(q@, p@.samples[k as int].descriptor));
            assert((k as int) * 1000000 + 1000000 == (k as int + 1) * 1000000);
        }
        if s > mx {
            mx = s;
        }
        if s < mn {
            mn = s;
        }
        sum = sum + s as u128;
        k = k + 1;
    }
    proof {
        assert(sims.take(n as int) =~= sims);
    }
    let nn = n as u128;
    proof {
        assert(nn * (mx as u128) <= 0x10000000000000000u128 * 1000000) by (nonlinear_arith)
            requires
                nn <= 0xffffffffffffffffu128,
                mx <= 1000000,
        ;
        assert(nn * (mn as u128) <= 0x10000000000000000u128 * 1000000) by (nonlinear_arith)
            requires
                nn <= 0xffffffffffffffffu128,
                mn <= 1000000,
        ;
        assert(sum <= 0x10000000000000000u128 * 1000000) by (nonlinear_arith)
            requires
                sum <= nn * 1000000,
                nn <= 0xffffffffffffffffu128,
        ;
    }
    let mxn: u128 = nn * (mx as u128);
    let mnn: u128 = nn * (mn as u128);
    let total: u128 = 2 * mxn + 2 * sum + mnn;
    let denom: u128 = 5 * nn;
    let sc = total / denom;
    proof {
        let ni = n as int;
        assert(total as int <= 5 * ni * 1000000) by (nonlinear_arith)
            requires
                total as int == 2 * (ni * (mx as int)) + 2 * (sum as int) + ni * (mn as int),
                mx <= 1000000,
                mn <= 1000000,
                sum as int <= ni * 1000000,
                ni >= 1,
        ;
        vstd::arithmetic::div_mod::lemma_div_is_ordered(total as int, 5 * ni * 1000000, 5 * ni);
        vstd::arithmetic::div_mod::lemma_div_multiples_vanish(1000000, 5 * ni);
        assert(sc <= SCALE);
    }
    sc as u64
}

impl FaceDatabase {
    /// The acceptance threshold for `user_id`: the global threshold, lowered
    /// for well-enrolled users (more samples, higher enrollment confidence)
    /// but never below the fixed-point `0.70`; unknown users get the raw
    /// global threshold.
    pub fn adaptive_threshold(&self, user_id: &str) -> (r: u64)
        requires
            self@.wf(),
        ensures
            r as int == spec_user_threshold(self@, user_id@),
            r <= SCALE,
    {
        let base = self.accuracy_threshold;
        match self.find_user_index(user_id) {
            None => base,
            Some(i) => {
                proof {
                    lemma_user_idx_unique(self@, user_id@, i as int);
                }
                let ghost samples = self@.users[i as int].samples;
                let n = self.users[i].face_samples.len();
                let avg: u64 = if n == 0 {
                    0
                } else {
                    let mut sum: u128 = 0;
                    let mut k: usize = 0;
                    while k < n
                        invariant
                            self@.wf(),
                            i < self@.users.len(),
                            samples == self@.users[i as int].samples,
                            n == samples.len(),
                            k <= n,
                            sum == spec_conf_sum(samples.take(k as int)),
                            sum <= (k as int) * 1000000,
                        decreases n - k,
                    {
                        proof {
                            lemma_conf_sum_take_step(samples, k as int);
                            assert(sample_wf(samples[k as int], self@.next_sample_id));
                            assert((k as int) * 1000000 + 1000000 == (k as int + 1) * 1000000);
                        }
                        sum = sum + self.users[i].face_samples[k].confidence as u128;
                        k = k + 1;
                    }
                    proof {
                        assert(samples.take(n as int) =~= samples);
                        let ni = n as int;
                        vstd::arithmetic::div_mod::lemma_div_is_ordered(
                            sum as int,
                            ni * 1000000,
                            ni,
                        );
                        vstd::arithmetic::div_mod::lemma_div_multiples_vanish(1000000, ni);
                    }
                    (sum / (n as u128)) as u64
                };
                let sample_bonus: u64 = if n == 0 {
                    0
                } else {
                    100000
                };
                let confidence_bonus: u64 = if avg > 700000 {
                    (avg - 700000) / 5
                } else {
                    0
                };
                let cut = sample_bonus + confidence_bonus;
                if base >= 700000 + cut {
                    base - cut
                } else {
                    700000
                }
            },
        }
    }
}

/// What `find_best_match` returns when it returns a user: `uid` names a
/// profile with at least one sample whose score is `score`, and every other
/// scored profile either scores strictly less or ties and follows `uid` in
/// user-id order.
pub open spec fn is_best_match(v: StoreView, q: Seq<u64>, uid: Seq<char>, score: int) -> bool {
    &&& exists|i: int|
        0 <= i < v.users.len() && (#[trigger] v.users[i]).user_id == uid && v.users[i].samples.len()
            > 0 && score == spec_user_score(v.users[i], q)
    &&& forall|j: int|
        0 <= j < v.users.len() && (#[trigger] v.users[j]).samples.len() > 0 ==> spec_user_score(
            v.users[j],
            q,
        ) < score || (spec_user_score(v.users[j], q) == score && lex_le(uid, v.users[j].user_id))
}


impl FaceDatabase {
    /// Search every enrolled profile for the best match against `features`.
    ///
    /// Returns `None` exactly when no profile has a sample (in particular on
    /// an empty store).  Otherwise returns the user with the greatest weighted
    /// score; exact ties are broken deterministically by ascending user id.
    pub fn find_best_match(&self, features: &[u64]) -> (r: Option<(String, u64)>)
        requires
            self@.wf(),
            wf_descriptor(features@),
        ensures
            match r {
                None => forall|j: int|
                    0 <= j < self@.users.len() ==> (#[trigger] self@.users[j]).samples.len() == 0,
                Some(m) => is_best_match(self@, features@, m.0@, m.1 as int) && m.1 <= SCALE,
            },
            self@.users.len() == 0 ==> r is None,
    {
        let ghost v = self@;
        let ghost q = features@;
        let n = self.users.len();
        let mut found = false;
        let mut best_i: usize = 0;
        let mut best_score: u64 = 0;
        let mut i: usize = 0;
        while i < n
            invariant
                v == self@,
                q == features@,
                v.wf(),
                wf_descriptor(q),
                n == v.users.len(),
                i <= n,
                !found ==> forall|j: int|
                    0 <= j < i ==> (#[trigger] v.users[j]).samples.len() == 0,
                found ==> best_i < i && v.users[best_i as int].samples.len() > 0 && best_score
                    as int == spec_user_score(v.users[best_i as int], q) && best_score <= SCALE,
                found ==> forall|j: int|
                    0 <= j < i && (#[trigger] v.users[j]).samples.len() > 0 ==> spec_user_score(
                        v.users[j],
                        q,
                    ) < best_score as int || (spec_user_score(v.users[j], q) == best_score as int
                        && lex_le(v.users[best_i as int].user_id, v.users[j].user_id)),
            decreases n - i,
        {
            if self.users[i].face_samples.len() > 0 {
                proof {
                    assert(profile_wf(v.users[i as int], v.next_sample_id));
                    assert forall|k: int|
                        0 <= k < v.users[i as int].samples.len() implies wf_descriptor(
                        (#[trigger] v.users[i as int].samples[k]).descriptor,
                    ) by {
                        assert(sample_wf(v.users[i as int].samples[k], v.next_sample_id));
                    }
                }
                let sc = user_score(&self.users[i], features);
                if !found {
                    found = true;
                    best_i = i;
                    best_score = sc;
                } else if sc > best_score {
                    best_i = i;
                    best_score = sc;
                } else if sc == best_score && str_lt(
                    self.users[i].user_id.as_str(),
                    self.users[best_i].user_id.as_str(),
                ) {
                    let ghost ob = best_i as int;
                    best_i = i;
                    best_score = sc;
                    proof {
                        let nu = v.users[i as int].user_id;
                        let ou = v.users[ob].user_id;
                        assert forall|j: int|
                            0 <= j < i + 1 && (#[trigger] v.users[j]).samples.len() > 0
                                && spec_user_score(v.users[j], q) == sc as int implies lex_le(
                            nu,
                            v.users[j].user_id,
                        ) by {
                            if j < i {
                                assert(lex_le(ou, v.users[j].user_id));
                                if ou == v.users[j].user_id {
                                    assert(lex_lt(nu, v.users[j].user_id));
                                } else {
                                    lemma_lex_lt_trans(nu, ou, v.users[j].user_id);
                                }
                            }
                        }
                    }
                } else {
                    proof {
                        if sc == best_score {
                            let nu = v.users[i as int].user_id;
                            let ou = v.users[best_i as int].user_id;
                            lemma_lex_total(ou, nu);
                        }
                    }
                }
            }
            i = i + 1;
        }
        if found {
            let uid = self.users[best_i].user_id.clone();
            proof {
                assert(v.users[best_i as int].user_id == uid@);
            }
            Some((uid, best_score))
        } else {
            None
        }
    }
}

/// The outcome of one authentication decision.
#[derive(Debug, Clone, PartialEq, Eq)]
pub struct AuthenticationResult {
    /// Did the best match clear its user's adaptive threshold?
    pub is_match: bool,
    /// The best weighted similarity score (fixed point; zero without a match).
    pub confidence: u64,
    /// The best-matching user, if any profile had samples.
    pub matched_user_id: Option<String>,
    /// The threshold the score was held against.
    pub similarity_threshold: u64,
}

/// The complete authentication decision over a store: what the result must
/// look like, and how the store may change, when a query `q` is authenticated
/// at time `now` against the store `v0`, leaving `vf`.
pub open spec fn spec_auth_decision(
    v0: StoreView,
    vf: StoreView,
    q: Seq<u64>,
    now: u64,
    r: AuthenticationResult,
) -> bool {
    if forall|j: int| 0 <= j < v0.users.len() ==> (#[trigger] v0.users[j]).samples.len() == 0 {
        &&& !r.is_match
        &&& r.confidence == 0
        &&& r.matched_user_id is None
        &&& r.similarity_threshold == v0.accuracy_threshold
        &&& vf == v0
    } else {
        &&& r.matched_user_id is Some
        &&& is_best_match(v0, q, r.matched_user_id->0@, r.confidence as int)
        &&& r.similarity_threshold as int == spec_user_threshold(v0, r.matched_user_id->0@)
        &&& r.is_match == (r.confidence >= r.similarity_threshold)
        &&& r.is_match ==> vf.users =~= v0.users.update(
            v0.user_idx(r.matched_user_id->0@),
            (ProfileView {
                last_authentication: Some(now),
                authentication_count: (v0.users[v0.user_idx(
                    r.matched_user_id->0@,
                )].authentication_count + 1) as u64,
                ..v0.users[v0.user_idx(r.matched_user_id->0@)]
            }),
        )
        &&& !r.is_match ==> vf == v0
        &&& vf.version == v0.version && vf.accuracy_threshold == v0.accuracy_threshold
            && vf.min_samples_per_user == v0.min_samples_per_user && vf.max_samples_per_user
            == v0.max_samples_per_user && vf.next_sample_id == v0.next_sample_id
    }
}

/// The match engine bound to a store: the complete authentication decision
/// logic, composing best-match search, the adaptive threshold, and the
/// bookkeeping of successful authentications.
pub struct AdvancedAuthenticator {
    pub detector: crate::features::FaceDetector,
    pub database: FaceDatabase,
}

impl AdvancedAuthenticator {
    /// Bind the engine to a store (typically one the caller just loaded).
    pub fn new(database: FaceDatabase) -> (r: AdvancedAuthenticator)
        ensures
            r.database == database,
    {
        AdvancedAuthenticator { detector: crate::features::FaceDetector, database }
    }

    /// The per-user adaptive acceptance threshold (see
    /// [`FaceDatabase::adaptive_threshold`]).
    pub fn calculate_adaptive_threshold(&self, user_id: &str) -> (r: u64)
        requires
            self.database@.wf(),
        ensures
            r as int == spec_user_threshold(self.database@, user_id@),
    {
        self.database.adaptive_threshold(user_id)
    }

    /// Decide whether `features` authenticates as some enrolled user at time
    /// `now`: find the best match, hold its score against that user's
    /// adaptive threshold, and record the authentication when it succeeds.
    pub fn authenticate_descriptor(&mut self, features: &[u64], now: u64) -> (r:
        AuthenticationResult)
        requires
            old(self).database@.wf(),
            wf_descriptor(features@),
            forall|i: int|
                0 <= i < old(self).database@.users.len() ==> (#[trigger] old(
                    self,
                ).database@.users[i]).authentication_count < u64::MAX,
        ensures
            final(self).database@.wf(),
            spec_auth_decision(old(self).database@, final(self).database@, features@, now, r),
    {
        let ghost v0 = self.database@;
        match self.database.find_best_match(features) {
            None => AuthenticationResult {
                is_match: false,
                confidence: 0,
                matched_user_id: None,
                similarity_threshold: self.database.accuracy_threshold,
            },
            Some((user_id, confidence)) => {
                let threshold = self.database.adaptive_threshold(user_id.as_str());
                let is_match = confidence >= threshold;
                if is_match {
                    self.database.update_authentication_stats(user_id.as_str(), now);
                }
                proof {
                    assert(exists|j: int|
                        0 <= j < v0.users.len() && (#[trigger] v0.users[j]).samples.len() > 0);
                }
                AuthenticationResult {
                    is_match,
                    confidence,
                    matched_user_id: Some(user_id),
                    similarity_threshold: threshold,
                }
            },
        }
    }

    /// Aggregate counters of the bound store.
    pub fn get_database_stats(&self) -> (r: crate::store::DatabaseStats)
        requires
            crate::store::spec_total_samples(self.database@.users) <= usize::MAX,
            crate::store::spec_total_auths(self.database@.users) <= u64::MAX,
        ensures
            r.total_users == self.database@.users.len(),
            r.accuracy_threshold == self.database@.accuracy_threshold,
    {
        self.database.get_database_stats()
    }

    /// Trim oversized profiles in the bound store (see
    /// [`FaceDatabase::optimize_database`]).
    pub fn optimize_database(&mut self) -> (removed: usize)
        requires
            old(self).database@.wf(),
            crate::store::spec_excess(
                old(self).database@.users,
                old(self).database@.max_samples_per_user as int,
            ) <= usize::MAX,
        ensures
            final(self).database@.wf(),
            removed == crate::store::spec_excess(
                old(self).database@.users,
                old(self).database@.max_samples_per_user as int,
            ),
    {
        self.database.optimize_database()
    }
}

} // verus!
