//! Enrollment-side logic: the sample quality gate and enrollment statistics.

use vstd::prelude::*;
use crate::errors::FaceError;
use crate::features::FaceDetector;
use crate::math::SCALE;
use crate::similarity::wf_descriptor;
use crate::store::{
    add_base_users, add_idx, is_top_k_of, new_sample_view, spec_enrolled_count, spec_excess,
    spec_total_auths, spec_total_samples, FaceDatabase, ProfileView,
};

verus! {

/// Aggregate enrollment counters, as reported by `get_registration_stats`.
#[derive(Debug, Clone, Copy, PartialEq, Eq)]
pub struct RegistrationStats {
    pub total_users: usize,
    pub enrolled_users: usize,
    pub pending_users: usize,
    pub total_samples: usize,
    /// Mean samples per user, fixed point (scaled by `SCALE`).
    pub avg_samples_per_user: u128,
    pub min_samples_required: usize,
}

/// How many new samples one enrollment session should aim for: enough to
/// complete enrollment, or two extra samples for an already enrolled user.
pub fn target_new_samples(current: usize, required: usize) -> (r: usize)
    ensures
        r == if current >= required {
            2usize
        } else {
            (required - current) as usize
        },
{
    if current >= required {
        2
    } else {
        required - current
    }
}

/// The enrollment engine bound to a store.
pub struct AdvancedRegistration {
    pub detector: FaceDetector,
    pub database: FaceDatabase,
}

impl AdvancedRegistration {
    /// Bind the engine to a store (typically one the caller just loaded).
    pub fn new(database: FaceDatabase) -> (r: AdvancedRegistration)
        ensures
            r.database == database,
    {
        AdvancedRegistration { detector: FaceDetector, database }
    }

    /// Enroll one captured sample after its quality gate: a sample whose
    /// detection confidence is below the fixed-point `0.70` is rejected with
    /// `LowConfidenceSample` and the store is left untouched; otherwise the
    /// sample is added (see [`FaceDatabase::add_face_sample`]) and its fresh
    /// id returned.
    pub fn register_sample(
        &mut self,
        user_id: String,
        descriptor: Vec<u64>,
        confidence: u64,
        timestamp: u64,
    ) -> (r: Result<u64, FaceError>)
        requires
            old(self).database@.wf(),
            wf_descriptor(descriptor@),
            confidence <= SCALE,
            old(self).database@.next_sample_id < u64::MAX,
        ensures
            final(self).database@.wf(),
            confidence < 700000 ==> r == Err::<u64, FaceError>(FaceError::LowConfidenceSample)
                && final(self).database@ == old(self).database@,
            confidence >= 700000 ==> {
                let v0 = old(self).database@;
                let base = add_base_users(v0, user_id@, timestamp);
                let idx = add_idx(v0, user_id@);
                let grown = base[idx].samples.push(
                    new_sample_view(v0, descriptor@, confidence, timestamp),
                );
                let kept = final(self).database@.users[idx].samples;
                &&& r == Ok::<u64, FaceError>(v0.next_sample_id)
                &&& final(self).database@.next_sample_id == v0.next_sample_id + 1
                &&& final(self).database@.users.len() == base.len()
                &&& forall|j: int|
                    0 <= j < base.len() && j != idx ==> final(self).database@.users[j] == base[j]
                &&& final(self).database@.users[idx] == (ProfileView { samples: kept, ..base[idx] })
                &&& grown.len() <= v0.max_samples_per_user ==> kept =~= grown
                &&& grown.len() > v0.max_samples_per_user ==> is_top_k_of(
                    kept,
                    grown,
                    v0.max_samples_per_user as nat,
                )
            },
    {
        if confidence < 700000 {
            return Err(FaceError::LowConfidenceSample);
        }
        let sid = self.database.add_face_sample(user_id, descriptor, confidence, timestamp);
        Ok(sid)
    }

    /// Aggregate enrollment counters over the bound store.
    pub fn get_registration_stats(&self) -> (r: RegistrationStats)
        requires
            spec_total_samples(self.database@.users) <= usize::MAX,
            spec_total_auths(self.database@.users) <= u64::MAX,
        ensures
            r.total_users == self.database@.users.len(),
            r.enrolled_users == spec_enrolled_count(
                self.database@.users,
                self.database@.min_samples_per_user as int,
            ),
            r.pending_users == r.total_users - r.enrolled_users,
            r.total_samples == spec_total_samples(self.database@.users),
            r.avg_samples_per_user == (if r.total_users == 0 {
                0int
            } else {
                r.total_samples * SCALE / (r.total_users as int)
            }),
            r.min_samples_required == self.database@.min_samples_per_user,
    {
        let stats = self.database.get_database_stats();
        let avg: u128 = if stats.total_users == 0 {
            0
        } else {
            (stats.total_samples as u128) * (SCALE as u128) / (stats.total_users as u128)
        };
        RegistrationStats {
            total_users: stats.total_users,
            enrolled_users: stats.enrolled_users,
            pending_users: stats.total_users - stats.enrolled_users,
            total_samples: stats.total_samples,
            avg_samples_per_user: avg,
            min_samples_required: stats.min_samples_per_user,
        }
    }
}

} // verus!
