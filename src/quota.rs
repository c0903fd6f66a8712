//! Fairness quota: every user's uploads are bounded by what the user contributes.
use vstd::prelude::*;
use vstd::string::*;
use crate::text::push_decimal;

verus! {

/// Relies on `std::time::SystemTime::now` against `UNIX_EPOCH`: whole seconds; nothing is
/// known of the value.
#[verifier::external_body]
pub(crate) fn unix_now_secs() -> (r: u64) {
    std::time::SystemTime::now().duration_since(std::time::UNIX_EPOCH).map(|d| d.as_secs()).unwrap_or(0)
}

/// Quota policy. The contribution ratio is in thousandths: 1000 means one byte
/// contributed per byte used, 1500 means one and a half.
#[derive(Debug, Clone)]
pub struct QuotaConfig {
    /// Free allowance during the grace period (bytes).
    pub min_contribution: u64,
    /// Most a user may use (bytes).
    pub max_usage: u64,
    /// Contribution required per byte used, in thousandths.
    pub contribution_ratio_milli: u64,
    /// Length of the grace period for new users (seconds).
    pub grace_period_secs: u64,
    /// Where quota data is kept.
    pub data_path: String,
}

impl Default for QuotaConfig {
    /// 100 MiB free allowance, 100 GiB cap, ratio 1.0, seven days of grace.
    fn default() -> (r: QuotaConfig)
        ensures
            r.min_contribution == 100 * 1024 * 1024,
            r.max_usage == 100 * 1024 * 1024 * 1024,
            r.contribution_ratio_milli == 1000,
            r.grace_period_secs == 7 * 24 * 60 * 60,
    {
        QuotaConfig {
            min_contribution: 1024 * 1024 * 100,
            max_usage: 1024 * 1024 * 1024 * 100,
            contribution_ratio_milli: 1000,
            grace_period_secs: 7 * 24 * 60 * 60,
            data_path: String::from_str("./libredrive_data"),
        }
    }
}

/// One user's usage and contribution.
#[derive(Debug, Clone)]
pub struct UserQuota {
    pub user_id: String,
    pub bytes_used: u64,
    pub bytes_contributed: u64,
    pub files_count: u64,
    pub shards_hosted: u64,
    pub joined_at: u64,
    pub last_active: u64,
    pub in_grace_period: bool,
}

/// `floor(contributed / ratio)` with the ratio in thousandths; a ratio of 0 asks for no
/// contribution, so the bound is `u64::MAX`.
pub open spec fn max_allowed_of(contributed: nat, ratio_milli: nat) -> nat {
    if ratio_milli == 0 { u64::MAX as nat } else { (contributed * 1000 / ratio_milli) as nat }
}

/// The most the user may have in use: the grace allowance, or the contribution bound
/// capped by `max_usage`.
pub open spec fn usage_cap(q: UserQuota, c: QuotaConfig) -> nat {
    let m = max_allowed_of(q.bytes_contributed as nat, c.contribution_ratio_milli as nat);
    if m < c.max_usage { m } else { c.max_usage as nat }
}

/// Whether an upload of `size` bytes is admitted.
pub open spec fn admits(q: UserQuota, c: QuotaConfig, size: nat) -> bool {
    if q.in_grace_period {
        size <= c.min_contribution
    } else {
        q.bytes_used + size <= usage_cap(q, c)
    }
}

/// Contribution still missing for `size` more bytes: `floor((used + size) * ratio)` less
/// what is contributed, at least 0 and at most `u64::MAX`.
pub open spec fn needed_contribution_of(q: UserQuota, c: QuotaConfig, size: nat) -> nat {
    let t = ((q.bytes_used + size) * c.contribution_ratio_milli / 1000) as nat;
    let d = if t > q.bytes_contributed { (t - q.bytes_contributed) as nat } else { 0nat };
    if d <= u64::MAX { d } else { u64::MAX as nat }
}

/// The allowance a usage percentage is taken against: the grace allowance, or
/// `floor(contributed / ratio)` at most `u64::MAX`.
pub open spec fn allowance_of(q: UserQuota, c: QuotaConfig) -> nat {
    if q.in_grace_period {
        c.min_contribution as nat
    } else {
        let m = max_allowed_of(q.bytes_contributed as nat, c.contribution_ratio_milli as nat);
        if m <= u64::MAX { m } else { u64::MAX as nat }
    }
}

/// Usage as a whole percentage of the allowance, at most 100; 100 with no allowance.
pub open spec fn usage_percent_of(q: UserQuota, c: QuotaConfig) -> nat {
    let a = allowance_of(q, c);
    if a == 0 {
        100
    } else {
        let p = (q.bytes_used as nat * 100 / a) as nat;
        if p > 100 { 100 } else { p }
    }
}

/// Whether the grace period is over at `now`.
pub open spec fn grace_expired(q: UserQuota, c: QuotaConfig, now: nat) -> bool {
    now > q.joined_at && now - q.joined_at > c.grace_period_secs
}

/// `after` is `before` with its grace period checked at `now`.
pub open spec fn grace_checked(before: UserQuota, after: UserQuota, c: QuotaConfig, now: u64) -> bool {
    &&& after.in_grace_period == (before.in_grace_period && !grace_expired(before, c, now as nat))
    &&& after == (UserQuota { in_grace_period: after.in_grace_period, ..before })
}

impl UserQuota {
    /// A fresh quota for a user joining at `now`, in the grace period.
    pub fn new_at(user_id: String, now: u64) -> (r: UserQuota)
        ensures
            r.user_id == user_id,
            r.bytes_used == 0,
            r.bytes_contributed == 0,
            r.files_count == 0,
            r.shards_hosted == 0,
            r.joined_at == now,
            r.last_active == now,
            r.in_grace_period,
    {
        UserQuota {
            user_id,
            bytes_used: 0,
            bytes_contributed: 0,
            files_count: 0,
            shards_hosted: 0,
            joined_at: now,
            last_active: now,
            in_grace_period: true,
        }
    }

    /// A fresh quota for a user joining now.
    pub fn new(user_id: String) -> (r: UserQuota)
        ensures
            r.user_id == user_id,
            r.bytes_used == 0,
            r.bytes_contributed == 0,
            r.files_count == 0,
            r.shards_hosted == 0,
            r.joined_at == r.last_active,
            r.in_grace_period,
    {
        UserQuota::new_at(user_id, unix_now_secs())
    }

    /// `floor(contributed / ratio)` capped by `max_usage`.
    fn cap(&self, config: &QuotaConfig) -> (r: u64)
        ensures
            r == usage_cap(*self, *config),
    {
        let m: u128 = if config.contribution_ratio_milli == 0 {
            u64::MAX as u128
        } else {
            (self.bytes_contributed as u128) * 1000 / (config.contribution_ratio_milli as u128)
        };
        if m < config.max_usage as u128 {
            m as u64
        } else {
            config.max_usage
        }
    }

    /// Bytes the user may still upload: the grace allowance, or the cap less what is used.
    pub fn available_storage(&self, config: &QuotaConfig) -> (r: u64)
        ensures
            self.in_grace_period ==> r == config.min_contribution,
            !self.in_grace_period ==> r == if self.bytes_used <= usage_cap(*self, *config) {
                usage_cap(*self, *config) - self.bytes_used
            } else {
                0
            },
    {
        if self.in_grace_period {
            return config.min_contribution;
        }
        self.cap(config).saturating_sub(self.bytes_used)
    }

    /// Whether an upload of `size` bytes is admitted.
    pub fn can_upload(&self, size: u64, config: &QuotaConfig) -> (r: bool)
        ensures
            r == admits(*self, *config, size as nat),
    {
        if self.in_grace_period {
            return size <= config.min_contribution;
        }
        (self.bytes_used as u128) + (size as u128) <= self.cap(config) as u128
    }

    /// Share of the allowance in use, in percent, at most 100; 100 with no allowance at all.
    pub fn usage_percentage(&self, config: &QuotaConfig) -> (r: u64)
        ensures
            r == usage_percent_of(*self, *config),
    {
        let max_allowed: u64 = if self.in_grace_period {
            config.min_contribution
        } else {
            let m: u128 = if config.contribution_ratio_milli == 0 {
                u64::MAX as u128
            } else {
                (self.bytes_contributed as u128) * 1000 / (config.contribution_ratio_milli as u128)
            };
            if m > u64::MAX as u128 { u64::MAX } else { m as u64 }
        };
        if max_allowed == 0 {
            return 100;
        }
        let p: u128 = (self.bytes_used as u128) * 100 / (max_allowed as u128);
        if p > 100 { 100 } else { p as u64 }
    }

    /// Ends the grace period once more than `grace_period_secs` have passed since joining.
    pub fn check_grace_period_at(&mut self, config: &QuotaConfig, now: u64)
        ensures
            grace_checked(*old(self), *final(self), *config, now),
    {
        if self.in_grace_period && now > self.joined_at && now - self.joined_at > config.grace_period_secs {
            self.in_grace_period = false;
        }
    }

    /// `check_grace_period_at` with the current time.
    pub fn check_grace_period(&mut self, config: &QuotaConfig)
        ensures
            exists|now: u64| #[trigger] grace_checked(*old(self), *final(self), *config, now),
    {
        let now = unix_now_secs();
        self.check_grace_period_at(config, now);
        assert(grace_checked(*old(self), *self, *config, now));
    }
}

/// Outcome of an admission check.
#[derive(Debug, Clone)]
pub enum QuotaCheckResult {
    Allowed,
    InsufficientQuota { current_contribution: u64, needed_contribution: u64, message: String },
}

/// Totals over all users.
#[derive(Debug, Clone, PartialEq, Eq)]
pub struct NetworkStats {
    pub total_storage_used: u64,
    pub total_storage_contributed: u64,
    pub total_users: u64,
    pub active_users: u64,
    pub average_contribution: u64,
}

/// One user's standing, for display. Percentages and ratios are integers: percent and
/// thousandths.
#[derive(Debug, Clone)]
pub struct QuotaSummary {
    pub bytes_used: u64,
    pub bytes_contributed: u64,
    pub bytes_available: u64,
    pub usage_percentage: u64,
    pub files_count: u64,
    pub shards_hosted: u64,
    pub in_grace_period: bool,
    pub contribution_ratio_milli: u64,
}

/// The first position holding `id`'s quota, or -1.
pub open spec fn first_index(s: Seq<UserQuota>, id: Seq<char>) -> int
    decreases s.len(),
{
    if s.len() == 0 {
        -1
    } else if s[0].user_id@ == id {
        0
    } else {
        let r = first_index(s.drop_first(), id);
        if r < 0 { -1 } else { r + 1 }
    }
}

proof fn lemma_first_index_append(s: Seq<UserQuota>, q: UserQuota, id: Seq<char>)
    requires
        first_index(s, id) < 0,
        q.user_id@ == id,
    ensures
        first_index(s.push(q), id) == s.len(),
    decreases s.len(),
{
    if s.len() > 0 {
        lemma_first_index_append(s.drop_first(), q, id);
        assert(s.push(q).drop_first() =~= s.drop_first().push(q));
    }
}

proof fn lemma_first_index(s: Seq<UserQuota>, id: Seq<char>)
    ensures
        -1 <= first_index(s, id) < s.len(),
        first_index(s, id) >= 0 ==> s[first_index(s, id)].user_id@ == id,
        forall|j: int| 0 <= j < s.len() && (first_index(s, id) < 0 || j < first_index(s, id)) ==> #[trigger] s[j].user_id@ != id,
    decreases s.len(),
{
    if s.len() > 0 {
        lemma_first_index(s.drop_first(), id);
        assert forall|j: int| 0 <= j < s.len() && (first_index(s, id) < 0 || j < first_index(s, id)) implies #[trigger] s[j].user_id@ != id by {
            if j > 0 {
                assert(s.drop_first()[j - 1] == s[j]);
            }
        }
    }
}

/// No user id occurs twice.
pub open spec fn unique_users(s: Seq<UserQuota>) -> bool {
    forall|i: int, j: int| 0 <= i < j < s.len() ==> #[trigger] s[i].user_id@ != #[trigger] s[j].user_id@
}

/// Tracks every user's quota.
pub struct QuotaManager {
    config: QuotaConfig,
    quotas: Vec<UserQuota>,
}

impl QuotaManager {
    pub closed spec fn spec_config(&self) -> QuotaConfig {
        self.config
    }

    /// The quotas, in order of first reference.
    pub closed spec fn spec_quotas(&self) -> Seq<UserQuota> {
        self.quotas@
    }

    /// No user has two quotas.
    pub open spec fn wf(&self) -> bool {
        unique_users(self.spec_quotas())
    }

    /// The quota of `id`, if any.
    pub open spec fn quota_of(&self, id: Seq<char>) -> Option<UserQuota> {
        let i = first_index(self.spec_quotas(), id);
        if i >= 0 { Some(self.spec_quotas()[i]) } else { None }
    }

    pub fn new(config: QuotaConfig) -> (r: QuotaManager)
        ensures
            r.spec_config() == config,
            r.spec_quotas() == Seq::<UserQuota>::empty(),
            r.wf(),
    {
        QuotaManager { config, quotas: Vec::new() }
    }

    /// Position of `user_id`'s quota, if any.
    fn find(&self, user_id: &str) -> (r: Option<usize>)
        ensures
            r matches Some(i) ==> i == first_index(self.quotas@, user_id@),
            r is None ==> first_index(self.quotas@, user_id@) < 0,
    {
        proof {
            lemma_first_index(self.quotas@, user_id@);
        }
        let id = String::from_str(user_id);
        let mut i: usize = 0;
        while i < self.quotas.len()
            invariant
                i <= self.quotas@.len(),
                id@ == user_id@,
                forall|j: int| 0 <= j < i ==> #[trigger] self.quotas@[j].user_id@ != user_id@,
                -1 <= first_index(self.quotas@, user_id@) < self.quotas@.len(),
                first_index(self.quotas@, user_id@) >= 0 ==> self.quotas@[first_index(self.quotas@, user_id@)].user_id@ == user_id@,
                forall|j: int| 0 <= j < self.quotas@.len() && (first_index(self.quotas@, user_id@) < 0 || j < first_index(self.quotas@, user_id@)) ==> #[trigger] self.quotas@[j].user_id@ != user_id@,
            decreases self.quotas@.len() - i,
        {
            if self.quotas[i].user_id == id {
                return Some(i);
            }
            i = i + 1;
        }
        None
    }

    /// Position of `user_id`'s quota, creating one that joins at `now` if needed.
    fn find_or_create(&mut self, user_id: &str, now: u64) -> (r: usize)
        requires
            old(self).wf(),
        ensures
            final(self).wf(),
            final(self).spec_config() == old(self).spec_config(),
            referenced(old(self).spec_quotas(), final(self).spec_quotas(), user_id@, now),
            r == first_index(final(self).spec_quotas(), user_id@),
            r < final(self).spec_quotas().len(),
    {
        proof {
            lemma_first_index(self.quotas@, user_id@);
        }
        match self.find(user_id) {
            Some(i) => i,
            None => {
                let q = UserQuota::new_at(String::from_str(user_id), now);
                self.quotas.push(q);
                proof {
                    lemma_first_index(old(self).quotas@, user_id@);
                    lemma_first_index(self.quotas@, user_id@);
                    let n = old(self).quotas@.len() as int;
                    assert(self.quotas@[n].user_id@ == user_id@);
                    assert(self.quotas@.subrange(0, n) =~= old(self).quotas@);
                    assert(first_index(self.quotas@, user_id@) == n) by {
                        lemma_first_index_append(old(self).quotas@, self.quotas@[n], user_id@);
                    }
                }
                self.quotas.len() - 1
            },
        }
    }

    /// The quota of `user_id`, created if absent with the current time as join time.
    pub fn get_user_quota(&mut self, user_id: &str) -> (r: &mut UserQuota)
        requires
            old(self).wf(),
        ensures
            final(r).user_id@ == user_id@ ==> final(self).wf(),
            final(self).spec_config() == old(self).spec_config(),
            old(self).quota_of(user_id@) matches Some(q) ==> *r == q,
            old(self).quota_of(user_id@) is None ==> r.user_id@ == user_id@ && r.bytes_used == 0 && r.bytes_contributed == 0
                && r.in_grace_period,
            exists|base: Seq<UserQuota>, now: u64|
                referenced(old(self).spec_quotas(), base, user_id@, now) && final(self).spec_quotas() == base.update(
                    first_index(base, user_id@),
                    *final(r),
                ),
    {
        let now = unix_now_secs();
        proof {
            lemma_first_index(self.quotas@, user_id@);
        }
        let i = self.find_or_create(user_id, now);
        proof {
            if first_index(old(self).quotas@, user_id@) < 0 {
                lemma_first_index_append(old(self).quotas@, self.quotas@[old(self).quotas@.len() as int], user_id@);
                assert(self.quotas@ =~= old(self).quotas@.push(self.quotas@[old(self).quotas@.len() as int]));
            }
        }
        &mut self.quotas[i]
    }
}

/// `q` is the quota a user named `id` gets on first reference at `now`.
pub open spec fn is_fresh(q: UserQuota, id: Seq<char>, now: u64) -> bool {
    &&& q.user_id@ == id
    &&& q.bytes_used == 0
    &&& q.bytes_contributed == 0
    &&& q.files_count == 0
    &&& q.shards_hosted == 0
    &&& q.joined_at == now
    &&& q.last_active == now
    &&& q.in_grace_period
}

/// The quotas after `id` is referenced at `now`: unchanged if present, else one fresh
/// quota appended.
pub open spec fn referenced(before: Seq<UserQuota>, after: Seq<UserQuota>, id: Seq<char>, now: u64) -> bool {
    if first_index(before, id) >= 0 {
        after == before
    } else {
        &&& after.len() == before.len() + 1
        &&& after.subrange(0, before.len() as int) == before
        &&& is_fresh(after[before.len() as int], id, now)
    }
}


/// `a + b`, at most `u64::MAX`.
pub open spec fn sat_add(a: u64, b: u64) -> u64 {
    if a + b <= u64::MAX { (a + b) as u64 } else { u64::MAX }
}

/// `a - b`, at least 0.
pub open spec fn sat_sub(a: u64, b: u64) -> u64 {
    if a >= b { (a - b) as u64 } else { 0 }
}

/// `q` with its grace period checked at `now`.
pub open spec fn graced(q: UserQuota, c: QuotaConfig, now: u64) -> UserQuota {
    UserQuota { in_grace_period: q.in_grace_period && !grace_expired(q, c, now as nat), ..q }
}

/// Sum of usage over the quotas.
pub open spec fn total_used(s: Seq<UserQuota>) -> nat
    decreases s.len(),
{
    if s.len() == 0 { 0 } else { total_used(s.drop_last()) + s.last().bytes_used as nat }
}

/// Sum of contributions over the quotas.
pub open spec fn total_contributed(s: Seq<UserQuota>) -> nat
    decreases s.len(),
{
    if s.len() == 0 { 0 } else { total_contributed(s.drop_last()) + s.last().bytes_contributed as nat }
}

/// Whether a user was active in the 24 hours before `now`.
pub open spec fn active_at(q: UserQuota, now: u64) -> bool {
    now < q.last_active + 24 * 60 * 60
}

/// Number of users active in the 24 hours before `now`.
pub open spec fn active_count(s: Seq<UserQuota>, now: u64) -> nat
    decreases s.len(),
{
    if s.len() == 0 { 0 } else { active_count(s.drop_last(), now) + if active_at(s.last(), now) { 1nat } else { 0nat } }
}

/// `min(x, u64::MAX)`.
pub open spec fn capped(x: nat) -> u64 {
    if x <= u64::MAX { x as u64 } else { u64::MAX }
}

/// Admission bound: outside the grace period, once an admitted upload of `size` bytes
/// is recorded, what the user uses stays within `floor(contributed / ratio)` and
/// `max_usage`.
pub proof fn lemma_quota_bound(q: UserQuota, c: QuotaConfig, size: u64)
    requires
        !q.in_grace_period,
        admits(q, c, size as nat),
    ensures
        sat_add(q.bytes_used, size) == q.bytes_used + size,
        sat_add(q.bytes_used, size) <= max_allowed_of(q.bytes_contributed as nat, c.contribution_ratio_milli as nat),
        sat_add(q.bytes_used, size) <= c.max_usage,
{
}

proof fn lemma_split_scale(t: int, r: int)
    requires
        t >= 0,
        r >= 0,
    ensures
        t * r / 1000 == (t / 1000) * r + (t % 1000) * r / 1000,
{
    let q = t / 1000;
    let m = t % 1000;
    assert(t == 1000 * q + m);
    assert(t * r == 1000 * (q * r) + m * r) by (nonlinear_arith) requires t == 1000 * q + m;
    assert(m * r >= 0) by (nonlinear_arith) requires m >= 0, r >= 0;
    assert((1000 * (q * r) + m * r) / 1000 == q * r + (m * r) / 1000) by (nonlinear_arith) requires m * r >= 0;
}

/// The admission check of `size` bytes for `id` at `now` took the quota table from
/// `before` to `after` and answered `r`.
pub open spec fn admitted(
    c: QuotaConfig,
    before: Seq<UserQuota>,
    after: Seq<UserQuota>,
    id: Seq<char>,
    size: u64,
    now: u64,
    r: QuotaCheckResult,
) -> bool {
    exists|mid: Seq<UserQuota>|
        #![trigger referenced(before, mid, id, now)]
        referenced(before, mid, id, now) && {
            let i = first_index(mid, id);
            let q = graced(mid[i], c, now);
            &&& 0 <= i < mid.len()
            &&& after == mid.update(i, q)
            &&& (r is Allowed <==> admits(q, c, size as nat))
            &&& r matches QuotaCheckResult::InsufficientQuota { current_contribution, needed_contribution, .. } ==> (
            current_contribution == q.bytes_contributed && needed_contribution == needed_contribution_of(
                q,
                c,
                size as nat,
            ))
        }
}

/// Recording an upload of `size` bytes by `id` at `now` took the table from `before` to `after`.
pub open spec fn upload_recorded(before: Seq<UserQuota>, after: Seq<UserQuota>, id: Seq<char>, size: u64, now: u64) -> bool {
    exists|mid: Seq<UserQuota>|
        #![trigger referenced(before, mid, id, now)]
        referenced(before, mid, id, now) && {
            let i = first_index(mid, id);
            after == mid.update(
                i,
                UserQuota {
                    bytes_used: sat_add(mid[i].bytes_used, size),
                    files_count: sat_add(mid[i].files_count, 1),
                    last_active: now,
                    ..mid[i]
                },
            )
        }
}

/// Recording a hosted shard of `size` bytes for `id` at `now` took the table from `before`
/// to `after`.
pub open spec fn hosting_recorded(before: Seq<UserQuota>, after: Seq<UserQuota>, id: Seq<char>, size: u64, now: u64) -> bool {
    exists|mid: Seq<UserQuota>|
        #![trigger referenced(before, mid, id, now)]
        referenced(before, mid, id, now) && {
            let i = first_index(mid, id);
            after == mid.update(
                i,
                UserQuota {
                    bytes_contributed: sat_add(mid[i].bytes_contributed, size),
                    shards_hosted: sat_add(mid[i].shards_hosted, 1),
                    last_active: now,
                    ..mid[i]
                },
            )
        }
}

/// `r` is the summary of `id` at `now`, the table going from `before` to `after`.
pub open spec fn summarized(
    c: QuotaConfig,
    before: Seq<UserQuota>,
    after: Seq<UserQuota>,
    id: Seq<char>,
    now: u64,
    r: QuotaSummary,
) -> bool {
    &&& r.contribution_ratio_milli == c.contribution_ratio_milli
    &&& exists|mid: Seq<UserQuota>|
        #![trigger referenced(before, mid, id, now)]
        referenced(before, mid, id, now) && {
            let i = first_index(mid, id);
            let q = graced(mid[i], c, now);
            &&& after == mid.update(i, q)
            &&& r.bytes_used == q.bytes_used
            &&& r.bytes_contributed == q.bytes_contributed
            &&& r.bytes_available == if q.in_grace_period {
                c.min_contribution as nat
            } else if q.bytes_used <= usage_cap(q, c) {
                (usage_cap(q, c) - q.bytes_used) as nat
            } else {
                0nat
            }
            &&& r.usage_percentage == usage_percent_of(q, c)
            &&& r.in_grace_period == q.in_grace_period
            &&& r.files_count == q.files_count
            &&& r.shards_hosted == q.shards_hosted
        }
}

/// `r` holds the totals of `s` at `now`.
pub open spec fn network_stats_of(s: Seq<UserQuota>, now: u64, r: NetworkStats) -> bool {
    &&& r.total_storage_used == capped(total_used(s))
    &&& r.total_storage_contributed == capped(total_contributed(s))
    &&& r.total_users == s.len()
    &&& r.active_users == active_count(s, now)
    &&& r.average_contribution == if s.len() > 0 { capped(total_contributed(s)) / (s.len() as u64) } else { 0 }
}

impl QuotaManager {
    /// Whether `needed` is the contribution `user_id` lacks for `size` more bytes.
    fn calculate_needed_contribution(q: &UserQuota, config: &QuotaConfig, additional_bytes: u64) -> (r: u64)
        ensures
            r == needed_contribution_of(*q, *config, additional_bytes as nat),
    {
        let total: u128 = (q.bytes_used as u128) + (additional_bytes as u128);
        let ratio = config.contribution_ratio_milli as u128;
        let hi: u128 = total / 1000;
        let lo: u128 = total % 1000;
        proof {
            assert(hi <= 0x0100_0000_0000_0000);
            assert(hi * ratio <= 0x0100_0000_0000_0000 * 0xFFFF_FFFF_FFFF_FFFF) by (nonlinear_arith)
                requires hi <= 0x0100_0000_0000_0000, ratio <= 0xFFFF_FFFF_FFFF_FFFF;
            assert(lo * ratio <= 1000 * 0xFFFF_FFFF_FFFF_FFFF) by (nonlinear_arith)
                requires lo < 1000, ratio <= 0xFFFF_FFFF_FFFF_FFFF;
            lemma_split_scale(total as int, ratio as int);
        }
        let needed: u128 = hi * ratio + lo * ratio / 1000;
        let missing: u128 = if needed > q.bytes_contributed as u128 { needed - q.bytes_contributed as u128 } else { 0 };
        if missing > u64::MAX as u128 { u64::MAX } else { missing as u64 }
    }

    /// Admission check at `now`: the user's quota is created if absent, its grace period
    /// checked, and the upload admitted by `admits`; a denial carries the user's
    /// contribution and the contribution still missing.
    pub fn can_upload_at(&mut self, user_id: &str, size: u64, now: u64) -> (r: QuotaCheckResult)
        requires
            old(self).wf(),
        ensures
            final(self).wf(),
            final(self).spec_config() == old(self).spec_config(),
            admitted(old(self).spec_config(), old(self).spec_quotas(), final(self).spec_quotas(), user_id@, size, now, r),
    {
        let i = self.find_or_create(user_id, now);
        let ghost mid = self.quotas@;
        self.quotas[i].check_grace_period_at(&self.config, now);
        proof {
            lemma_first_index(mid, user_id@);
            assert(self.quotas@ =~= mid.update(i as int, graced(mid[i as int], self.config, now)));
        }
        let q = &self.quotas[i];
        if q.can_upload(size, &self.config) {
            QuotaCheckResult::Allowed
        } else {
            let needed = QuotaManager::calculate_needed_contribution(q, &self.config, size);
            let mut message = String::from_str("Uploading ");
            push_decimal(&mut message, size);
            message.append(" bytes requires contributing ");
            push_decimal(&mut message, needed);
            message.append(" more bytes to the network.");
            QuotaCheckResult::InsufficientQuota {
                current_contribution: q.bytes_contributed,
                needed_contribution: needed,
                message,
            }
        }
    }

    /// `can_upload_at` with the current time.
    pub fn can_upload(&mut self, user_id: &str, size: u64) -> (r: QuotaCheckResult)
        requires
            old(self).wf(),
        ensures
            final(self).wf(),
            final(self).spec_config() == old(self).spec_config(),
            exists|now: u64|
                #[trigger] admitted(old(self).spec_config(), old(self).spec_quotas(), final(self).spec_quotas(), user_id@, size, now, r),
    {
        let now = unix_now_secs();
        let r = self.can_upload_at(user_id, size, now);
        assert(admitted(old(self).spec_config(), old(self).spec_quotas(), self.spec_quotas(), user_id@, size, now, r));
        r
    }

    /// Records an upload at `now`: usage and file count grow (saturating), activity is `now`.
    pub fn record_upload_at(&mut self, user_id: &str, size: u64, now: u64)
        requires
            old(self).wf(),
        ensures
            final(self).wf(),
            final(self).spec_config() == old(self).spec_config(),
            upload_recorded(old(self).spec_quotas(), final(self).spec_quotas(), user_id@, size, now),
    {
        let i = self.find_or_create(user_id, now);
        let ghost mid = self.quotas@;
        proof {
            lemma_first_index(mid, user_id@);
        }
        self.quotas[i].bytes_used = self.quotas[i].bytes_used.saturating_add(size);
        self.quotas[i].files_count = self.quotas[i].files_count.saturating_add(1);
        self.quotas[i].last_active = now;
        proof {
            let q = mid[i as int];
            assert(self.quotas@ =~= mid.update(
                i as int,
                UserQuota {
                    bytes_used: sat_add(q.bytes_used, size),
                    files_count: sat_add(q.files_count, 1),
                    last_active: now,
                    ..q
                },
            ));
        }
    }

    /// `record_upload_at` with the current time.
    pub fn record_upload(&mut self, user_id: &str, size: u64)
        requires
            old(self).wf(),
        ensures
            final(self).wf(),
            final(self).spec_config() == old(self).spec_config(),
            exists|now: u64| #[trigger] upload_recorded(old(self).spec_quotas(), final(self).spec_quotas(), user_id@, size, now),
    {
        let now = unix_now_secs();
        self.record_upload_at(user_id, size, now);
        assert(upload_recorded(old(self).spec_quotas(), self.spec_quotas(), user_id@, size, now));
    }

    /// Records a deletion: usage and file count shrink (saturating); unknown users are ignored.
    pub fn record_deletion(&mut self, user_id: &str, size: u64)
        requires
            old(self).wf(),
        ensures
            final(self).wf(),
            final(self).spec_config() == old(self).spec_config(),
            ({
                let i = first_index(old(self).spec_quotas(), user_id@);
                let q = old(self).spec_quotas()[i];
                if i >= 0 {
                    final(self).spec_quotas() == old(self).spec_quotas().update(
                        i,
                        UserQuota { bytes_used: sat_sub(q.bytes_used, size), files_count: sat_sub(q.files_count, 1), ..q },
                    )
                } else {
                    final(self).spec_quotas() == old(self).spec_quotas()
                }
            }),
    {
        proof {
            lemma_first_index(self.quotas@, user_id@);
        }
        match self.find(user_id) {
            Some(i) => {
                let ghost q = self.quotas@[i as int];
                self.quotas[i].bytes_used = self.quotas[i].bytes_used.saturating_sub(size);
                self.quotas[i].files_count = self.quotas[i].files_count.saturating_sub(1);
                assert(self.quotas@ =~= old(self).quotas@.update(
                    i as int,
                    UserQuota { bytes_used: sat_sub(q.bytes_used, size), files_count: sat_sub(q.files_count, 1), ..q },
                ));
            },
            None => {},
        }
    }

    /// Records hosting a shard at `now`: contribution and hosted count grow (saturating).
    pub fn record_shard_hosted_at(&mut self, user_id: &str, shard_size: u64, now: u64)
        requires
            old(self).wf(),
        ensures
            final(self).wf(),
            final(self).spec_config() == old(self).spec_config(),
            hosting_recorded(old(self).spec_quotas(), final(self).spec_quotas(), user_id@, shard_size, now),
    {
        let i = self.find_or_create(user_id, now);
        let ghost mid = self.quotas@;
        proof {
            lemma_first_index(mid, user_id@);
        }
        self.quotas[i].bytes_contributed = self.quotas[i].bytes_contributed.saturating_add(shard_size);
        self.quotas[i].shards_hosted = self.quotas[i].shards_hosted.saturating_add(1);
        self.quotas[i].last_active = now;
        proof {
            let q = mid[i as int];
            assert(self.quotas@ =~= mid.update(
                i as int,
                UserQuota {
                    bytes_contributed: sat_add(q.bytes_contributed, shard_size),
                    shards_hosted: sat_add(q.shards_hosted, 1),
                    last_active: now,
                    ..q
                },
            ));
        }
    }

    /// `record_shard_hosted_at` with the current time.
    pub fn record_shard_hosted(&mut self, user_id: &str, shard_size: u64)
        requires
            old(self).wf(),
        ensures
            final(self).wf(),
            final(self).spec_config() == old(self).spec_config(),
            exists|now: u64| #[trigger] hosting_recorded(old(self).spec_quotas(), final(self).spec_quotas(), user_id@, shard_size, now),
    {
        let now = unix_now_secs();
        self.record_shard_hosted_at(user_id, shard_size, now);
        assert(hosting_recorded(old(self).spec_quotas(), self.spec_quotas(), user_id@, shard_size, now));
    }

    /// Records removing a hosted shard: contribution and hosted count shrink (saturating);
    /// unknown users are ignored.
    pub fn record_shard_removed(&mut self, user_id: &str, shard_size: u64)
        requires
            old(self).wf(),
        ensures
            final(self).wf(),
            final(self).spec_config() == old(self).spec_config(),
            ({
                let i = first_index(old(self).spec_quotas(), user_id@);
                let q = old(self).spec_quotas()[i];
                if i >= 0 {
                    final(self).spec_quotas() == old(self).spec_quotas().update(
                        i,
                        UserQuota {
                            bytes_contributed: sat_sub(q.bytes_contributed, shard_size),
                            shards_hosted: sat_sub(q.shards_hosted, 1),
                            ..q
                        },
                    )
                } else {
                    final(self).spec_quotas() == old(self).spec_quotas()
                }
            }),
    {
        proof {
            lemma_first_index(self.quotas@, user_id@);
        }
        match self.find(user_id) {
            Some(i) => {
                let ghost q = self.quotas@[i as int];
                self.quotas[i].bytes_contributed = self.quotas[i].bytes_contributed.saturating_sub(shard_size);
                self.quotas[i].shards_hosted = self.quotas[i].shards_hosted.saturating_sub(1);
                assert(self.quotas@ =~= old(self).quotas@.update(
                    i as int,
                    UserQuota {
                        bytes_contributed: sat_sub(q.bytes_contributed, shard_size),
                        shards_hosted: sat_sub(q.shards_hosted, 1),
                        ..q
                    },
                ));
            },
            None => {},
        }
    }

    /// Totals at `now` (sums saturate at `u64::MAX`); a user is active if seen in the
    /// last 24 hours.
    pub fn get_network_stats_at(&self, now: u64) -> (r: NetworkStats)
        ensures
            network_stats_of(self.spec_quotas(), now, r),
    {
        let mut used: u64 = 0;
        let mut contributed: u64 = 0;
        let mut users: u64 = 0;
        let mut active: u64 = 0;
        let mut i: usize = 0;
        while i < self.quotas.len()
            invariant
                i <= self.quotas@.len(),
                users == i,
                used == capped(total_used(self.quotas@.subrange(0, i as int))),
                contributed == capped(total_contributed(self.quotas@.subrange(0, i as int))),
                active == active_count(self.quotas@.subrange(0, i as int), now),
                active <= i,
            decreases self.quotas@.len() - i,
        {
            let q = &self.quotas[i];
            proof {
                assert(self.quotas@.subrange(0, i + 1).drop_last() =~= self.quotas@.subrange(0, i as int));
            }
            used = used.saturating_add(q.bytes_used);
            contributed = contributed.saturating_add(q.bytes_contributed);
            users = users + 1;
            if (now as u128) < (q.last_active as u128) + 24 * 60 * 60 {
                active = active + 1;
            }
            i = i + 1;
        }
        assert(self.quotas@.subrange(0, i as int) =~= self.quotas@);
        NetworkStats {
            total_storage_used: used,
            total_storage_contributed: contributed,
            total_users: users,
            active_users: active,
            average_contribution: if users > 0 { contributed / users } else { 0 },
        }
    }

    /// `get_network_stats_at` with the current time.
    pub fn get_network_stats(&self) -> (r: NetworkStats)
        ensures
            exists|now: u64| #[trigger] network_stats_of(self.spec_quotas(), now, r),
    {
        let now = unix_now_secs();
        let r = self.get_network_stats_at(now);
        assert(network_stats_of(self.spec_quotas(), now, r));
        r
    }

    /// The user's standing at `now`, after the grace period is checked.
    pub fn get_quota_summary_at(&mut self, user_id: &str, now: u64) -> (r: QuotaSummary)
        requires
            old(self).wf(),
        ensures
            final(self).wf(),
            final(self).spec_config() == old(self).spec_config(),
            summarized(old(self).spec_config(), old(self).spec_quotas(), final(self).spec_quotas(), user_id@, now, r),
    {
        let i = self.find_or_create(user_id, now);
        let ghost mid = self.quotas@;
        self.quotas[i].check_grace_period_at(&self.config, now);
        proof {
            lemma_first_index(mid, user_id@);
            assert(self.quotas@ =~= mid.update(i as int, graced(mid[i as int], self.config, now)));
        }
        let q = &self.quotas[i];
        QuotaSummary {
            bytes_used: q.bytes_used,
            bytes_contributed: q.bytes_contributed,
            bytes_available: q.available_storage(&self.config),
            usage_percentage: q.usage_percentage(&self.config),
            files_count: q.files_count,
            shards_hosted: q.shards_hosted,
            in_grace_period: q.in_grace_period,
            contribution_ratio_milli: self.config.contribution_ratio_milli,
        }
    }

    /// `get_quota_summary_at` with the current time.
    pub fn get_quota_summary(&mut self, user_id: &str) -> (r: QuotaSummary)
        requires
            old(self).wf(),
        ensures
            final(self).wf(),
            final(self).spec_config() == old(self).spec_config(),
            exists|now: u64|
                #[trigger] summarized(old(self).spec_config(), old(self).spec_quotas(), final(self).spec_quotas(), user_id@, now, r),
    {
        let now = unix_now_secs();
        let r = self.get_quota_summary_at(user_id, now);
        assert(summarized(old(self).spec_config(), old(self).spec_quotas(), self.spec_quotas(), user_id@, now, r));
        r
    }
}

} // verus!
