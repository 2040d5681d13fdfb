//! Per-request routing records, session totals, and the rewards that calls earn.

use vstd::arithmetic::power2::{lemma2_to64, lemma_pow2_pos, lemma_pow2_unfold, pow2};
use vstd::prelude::*;

use crate::binary64::{
    law_addition_commutes, law_addition_is_monotone, law_multiplication_is_monotone,
    law_subtraction_is_antitone, law_zero_is_neutral, lemma_below_finite, lemma_nearest_exact,
    lemma_nearest_exists, lemma_nearest_monotone, lemma_rounded_sign, lemma_scaled_increases,
    lemma_sum_value, nearest, scaled, signed, Binary64, HIDDEN_BIT, INFINITY_BITS, ONE, ZERO,
};
use crate::clock::{format_millis, rfc3339_millis, YEAR_10000_MILLIS};
use crate::headers::{nonempty_header, nonempty_text};
use crate::model::text_option;
use crate::request::{copy_text, Facts, Metadata};
use crate::tables::{is_listing, pairs_in_order, PairMap, TextMap};
use crate::text::{lower, same_text};
use crate::thompson::{bucket_label, token_bucket};

verus! {

/// The bit pattern of `0.1`: the cost in dollars that counts as fully expensive.
pub const REWARD_COST_SCALE_USD: u64 = 0x3FB9_9999_9999_999A;

/// The bit pattern of `20000`: the latency in milliseconds that a call is measured against.
pub const REWARD_LATENCY_BUDGET_MS: u64 = 0x40D3_8800_0000_0000;

/// The bit pattern of `0.3`, the weight of cost and of latency in a reward.
pub const REWARD_WEIGHT: u64 = 0x3FD3_3333_3333_3333;

/// The bit pattern of `0.4`, the part of a reward that success alone earns.
pub const REWARD_FOR_SUCCESS: u64 = 0x3FD9_9999_9999_999A;

// ── Rewards ─────────────────────────────────────────────────────────────────

/// How large a fraction of `scale` the amount is, at most 1.
pub open spec fn share(amount: Binary64, scale: u64) -> Binary64 {
    amount.over(Binary64::of(scale)).smaller(Binary64::of(ONE))
}

/// The reward for staying below a scale: the unused share, weighted.
#[verifier::opaque]
pub open spec fn thrift(amount: Binary64, scale: u64) -> Binary64 {
    Binary64::of(ONE).minus(share(amount, scale)).times(Binary64::of(REWARD_WEIGHT))
}

/// The reward of a call: nothing for a failure; else the thrift in cost, an unknown cost being
/// free, plus the thrift in latency, plus the part for success.
pub open spec fn reward_of(cost_usd: Option<Binary64>, latency_ms: Binary64, success: bool) -> Binary64 {
    if !success {
        Binary64::of(ZERO)
    } else {
        let cost = match cost_usd {
            Some(cost) => cost,
            None => Binary64::of(ZERO),
        };
        thrift(cost, REWARD_COST_SCALE_USD).plus(thrift(latency_ms, REWARD_LATENCY_BUDGET_MS)).plus(
            Binary64::of(REWARD_FOR_SUCCESS),
        )
    }
}

/// Computes a reward between 0 and 1 from cost and latency, blended with a success bonus.
///
/// A failed call earns nothing: the cost and latency were spent without a usable answer.
pub fn compute_reward(cost_usd: Option<Binary64>, latency_ms: Binary64, success: bool) -> (reward:
    Binary64)
    ensures
        reward == reward_of(cost_usd, latency_ms, success),
{
    if !success {
        return Binary64::of(ZERO);
    }
    let one = Binary64::of(ONE);
    let weight = Binary64::of(REWARD_WEIGHT);
    let cost = match cost_usd {
        Some(cost) => cost,
        None => Binary64::of(ZERO),
    };
    proof {
        reveal(thrift);
    }
    let cost_norm = cost.div(Binary64::of(REWARD_COST_SCALE_USD)).min(one);
    let latency_norm = latency_ms.div(Binary64::of(REWARD_LATENCY_BUDGET_MS)).min(one);
    one.sub(cost_norm).mul(weight).add(one.sub(latency_norm).mul(weight)).add(
        Binary64::of(REWARD_FOR_SUCCESS),
    )
}

/// The terminal outcome of one routed or classifier call, for reward accounting.
#[derive(Clone, Copy, Debug, PartialEq, Eq, Structural)]
pub struct Outcome {
    /// Estimated dollars spent, when the target has a cost and usage was reported.
    pub cost_usd: Option<Binary64>,
    /// Wall-clock latency of the call, when measured.
    pub latency_ms: Option<Binary64>,
    /// Whether the call completed without a transport or upstream error.
    pub success: bool,
    /// The reward; none for classifier calls, which are not bandit arms.
    pub reward: Option<Binary64>,
}

// ── What a record is made of ────────────────────────────────────────────────

/// The capability judge's verdict for a routed call, as recorded in the log.
#[derive(Debug, PartialEq)]
pub struct JudgeVerdict {
    /// The judge's solve-probability estimate.
    pub p_solve: Option<Binary64>,
    /// The judge's capability boundary classification.
    pub capability_boundary: Option<String>,
    /// The judge's minimum required capability level.
    pub minimum_capability: Option<Binary64>,
}

/// The first text attached to a request under `key`.
pub open spec fn extra_text(facts: Facts, key: Seq<char>) -> Option<Seq<char>> {
    match facts.extra {
        Some(entries) => first_entry(entries, key),
        None => None,
    }
}

/// The first text named `key`.
pub open spec fn first_entry(entries: Seq<(Seq<char>, Seq<char>)>, key: Seq<char>) -> Option<
    Seq<char>,
>
    decreases entries.len(),
{
    if entries.len() == 0 {
        None
    } else if entries[0].0 == key {
        Some(entries[0].1)
    } else {
        first_entry(entries.skip(1), key)
    }
}

/// The first text attached to a request under `key`.
pub fn find_extra<'a>(metadata: &'a Metadata, key: &str) -> (text: Option<&'a String>)
    ensures
        match text {
            Some(text) => extra_text(metadata@, key@) == Some(text@),
            None => extra_text(metadata@, key@) is None,
        },
{
    match &metadata.extra_metadata {
        Some(entries) => {
            let ghost all = crate::request::entries_of(entries@);
            let mut i: usize = 0;
            assert(all.skip(0) =~= all);
            while i < entries.len()
                invariant
                    i <= entries@.len(),
                    all == crate::request::entries_of(entries@),
                    metadata@.extra == Some(all),
                    first_entry(all, key@) == first_entry(all.skip(i as int), key@),
                decreases entries.len() - i,
            {
                assert(all.skip(i as int)[0] == (entries@[i as int].0@, entries@[i as int].1@));
                if same_text(entries[i].0.as_str(), key) {
                    return Some(&entries[i].1);
                }
                assert(all.skip(i as int).skip(1) =~= all.skip(i + 1));
                i = i + 1;
            }
            None
        },
        None => None,
    }
}

impl JudgeVerdict {
    /// Reads the verdict that the classifier attached to a request.
    ///
    /// `p_solve` and `minimum_capability` are what reading the texts under
    /// `switchyard.judge.p_solve` and `switchyard.judge.minimum_capability` as numbers gave;
    /// neither counts where its text is absent.
    pub fn from_metadata(
        metadata: &Metadata,
        p_solve: Option<Binary64>,
        minimum_capability: Option<Binary64>,
    ) -> (verdict: Self)
        ensures
            verdict.p_solve == if extra_text(metadata@, "switchyard.judge.p_solve"@) is Some {
                p_solve
            } else {
                None
            },
            text_option(verdict.capability_boundary) == extra_text(
                metadata@,
                "switchyard.judge.capability_boundary"@,
            ),
            verdict.minimum_capability == if extra_text(
                metadata@,
                "switchyard.judge.minimum_capability"@,
            ) is Some {
                minimum_capability
            } else {
                None
            },
    {
        let capability_boundary = match find_extra(
            metadata,
            "switchyard.judge.capability_boundary",
        ) {
            Some(boundary) => Some(boundary.clone()),
            None => None,
        };
        JudgeVerdict {
            p_solve: match find_extra(metadata, "switchyard.judge.p_solve") {
                Some(_) => p_solve,
                None => None,
            },
            capability_boundary,
            minimum_capability: match find_extra(
                metadata,
                "switchyard.judge.minimum_capability",
            ) {
                Some(_) => minimum_capability,
                None => None,
            },
        }
    }
}

/// Request fields retained until terminal usage and routing are available.
#[derive(Debug, PartialEq)]
pub struct RoutingLogContext {
    pub task: Option<String>,
    pub trial_id: Option<String>,
    pub session_id: Option<String>,
    pub request_id: Option<String>,
    pub token_bucket: Option<String>,
}

/// The text of a header of a request, unless absent, empty or not visible.
pub open spec fn header_fact(facts: Facts, name: Seq<char>) -> Option<Seq<char>> {
    match facts.headers {
        Some(values) => nonempty_text(values, name),
        None => None,
    }
}

fn find_header(metadata: &Metadata, name: &str) -> (text: Option<String>)
    ensures
        text_option(text) == header_fact(metadata@, lower(name@)),
{
    match &metadata.http_headers {
        Some(headers) => nonempty_header(headers, name),
        None => None,
    }
}

impl RoutingLogContext {
    /// Captures the normalized session id, with the legacy log-only header as a fallback.
    pub fn from_metadata(metadata: &Metadata) -> (context: Self)
        ensures
            text_option(context.task) == header_fact(metadata@, "x-switchyard-intake-task"@),
            text_option(context.trial_id) == header_fact(metadata@, "x-switchyard-trial-id"@),
            text_option(context.session_id) == match metadata@.session_id {
                Some(id) => Some(id),
                None => header_fact(metadata@, "proxy_x_session_id"@),
            },
            text_option(context.request_id) == metadata@.correlation_id,
            context.token_bucket is None,
    {
        proof {
            reveal_strlit("x-switchyard-intake-task");
            reveal_strlit("x-switchyard-trial-id");
            reveal_strlit("proxy_x_session_id");
            assert(lower("x-switchyard-intake-task"@) =~= "x-switchyard-intake-task"@);
            assert(lower("x-switchyard-trial-id"@) =~= "x-switchyard-trial-id"@);
            assert(lower("proxy_x_session_id"@) =~= "proxy_x_session_id"@);
        }
        RoutingLogContext {
            task: find_header(metadata, "x-switchyard-intake-task"),
            trial_id: find_header(metadata, "x-switchyard-trial-id"),
            session_id: match &metadata.session_id {
                Some(id) => Some(id.clone()),
                None => find_header(metadata, "proxy_x_session_id"),
            },
            request_id: copy_text(&metadata.correlation_id),
            token_bucket: None,
        }
    }

    /// Records the bandit's token bucket, labelled from the request's estimated size.
    pub fn with_estimated_tokens(self, estimated_tokens: u64) -> (context: Self)
        ensures
            context.task == self.task,
            context.trial_id == self.trial_id,
            context.session_id == self.session_id,
            context.request_id == self.request_id,
            text_option(context.token_bucket) == Some(bucket_label(estimated_tokens as nat)),
    {
        RoutingLogContext {
            task: self.task,
            trial_id: self.trial_id,
            session_id: self.session_id,
            request_id: self.request_id,
            token_bucket: Some(token_bucket(estimated_tokens).to_owned()),
        }
    }
}

/// Tokens that a call used.
#[derive(Clone, Copy, Debug, PartialEq, Eq, Structural)]
pub struct TokenUsage {
    pub prompt_tokens: u64,
    pub cached_tokens: u64,
    pub cache_creation_tokens: u64,
    pub completion_tokens: u64,
    pub reasoning_tokens: u64,
}

impl Default for TokenUsage {
    fn default() -> (usage: Self)
        ensures
            usage == no_usage(),
    {
        TokenUsage {
            prompt_tokens: 0,
            cached_tokens: 0,
            cache_creation_tokens: 0,
            completion_tokens: 0,
            reasoning_tokens: 0,
        }
    }
}

/// The usage of a call that reported none.
pub open spec fn no_usage() -> TokenUsage {
    TokenUsage {
        prompt_tokens: 0,
        cached_tokens: 0,
        cache_creation_tokens: 0,
        completion_tokens: 0,
        reasoning_tokens: 0,
    }
}

/// One appended routing record; what a record does not say is none, zero or empty.
#[derive(Debug, PartialEq)]
pub struct RoutingRecord {
    pub ts: String,
    pub task: Option<String>,
    pub trial_id: Option<String>,
    pub session_id: Option<String>,
    pub request_id: Option<String>,
    pub model: String,
    pub tier: String,
    pub prompt_tokens: u64,
    pub cached_tokens: u64,
    pub cache_creation_tokens: u64,
    pub completion_tokens: u64,
    pub reasoning_tokens: u64,
    pub total_tokens: u64,
    /// Estimated dollars spent, when the target has a cost and usage was reported.
    pub cost_usd: Option<Binary64>,
    /// Wall-clock latency of the call, when measured.
    pub latency_ms: Option<Binary64>,
    /// Terminal success; none on records written before this field existed.
    pub success: Option<bool>,
    /// The reward of an answer call; none for classifier calls and older records.
    pub reward: Option<Binary64>,
    /// Bandit token bucket, when the request size was estimated.
    pub token_bucket: Option<String>,
    /// The judge's solve-probability estimate, when a capability judge ran.
    pub judge_p_solve: Option<Binary64>,
    /// The judge's capability boundary, when a capability judge ran.
    pub judge_capability_boundary: Option<String>,
    /// The judge's minimum required capability level, when a capability judge ran.
    pub judge_minimum_capability: Option<Binary64>,
}

/// A sum capped at the largest count.
pub open spec fn capped(n: int) -> u64 {
    if n > u64::MAX {
        u64::MAX
    } else {
        n as u64
    }
}

/// The record of a finished call, made at `unix_millis` after the epoch.
pub fn finished_record(
    context: RoutingLogContext,
    model: &str,
    tier: Option<&str>,
    usage: Option<TokenUsage>,
    outcome: Outcome,
    verdict: JudgeVerdict,
    unix_millis: u64,
) -> (record: RoutingRecord)
    requires
        unix_millis < YEAR_10000_MILLIS,
    ensures
        ({
            let used = match usage {
                Some(usage) => usage,
                None => no_usage(),
            };
            &&& record.ts@ == rfc3339_millis(unix_millis)
            &&& record.task == context.task
            &&& record.trial_id == context.trial_id
            &&& record.session_id == context.session_id
            &&& record.request_id == context.request_id
            &&& record.model@ == model@
            &&& record.tier@ == match tier {
                Some(tier) => tier@,
                None => ""@,
            }
            &&& record.prompt_tokens == used.prompt_tokens
            &&& record.cached_tokens == used.cached_tokens
            &&& record.cache_creation_tokens == used.cache_creation_tokens
            &&& record.completion_tokens == used.completion_tokens
            &&& record.reasoning_tokens == used.reasoning_tokens
            &&& record.total_tokens == capped(used.prompt_tokens + used.completion_tokens)
            &&& record.cost_usd == outcome.cost_usd
            &&& record.latency_ms == outcome.latency_ms
            &&& record.success == Some(outcome.success)
            &&& record.reward == outcome.reward
            &&& record.token_bucket == context.token_bucket
            &&& record.judge_p_solve == verdict.p_solve
            &&& record.judge_capability_boundary == verdict.capability_boundary
            &&& record.judge_minimum_capability == verdict.minimum_capability
        }),
{
    let used = match usage {
        Some(usage) => usage,
        None => TokenUsage::default(),
    };
    RoutingRecord {
        ts: format_millis(unix_millis),
        task: context.task,
        trial_id: context.trial_id,
        session_id: context.session_id,
        request_id: context.request_id,
        model: model.to_owned(),
        tier: match tier {
            Some(tier) => tier.to_owned(),
            None => "".to_owned(),
        },
        prompt_tokens: used.prompt_tokens,
        cached_tokens: used.cached_tokens,
        cache_creation_tokens: used.cache_creation_tokens,
        completion_tokens: used.completion_tokens,
        reasoning_tokens: used.reasoning_tokens,
        total_tokens: used.prompt_tokens.saturating_add(used.completion_tokens),
        cost_usd: outcome.cost_usd,
        latency_ms: outcome.latency_ms,
        success: Some(outcome.success),
        reward: outcome.reward,
        token_bucket: context.token_bucket,
        judge_p_solve: verdict.p_solve,
        judge_capability_boundary: verdict.capability_boundary,
        judge_minimum_capability: verdict.minimum_capability,
    }
}

// ── Session totals ──────────────────────────────────────────────────────────

/// What one model used in a session.
#[derive(Clone, Copy, Debug, PartialEq, Eq, Structural)]
pub struct SessionModelStats {
    pub calls: u64,
    pub prompt_tokens: u64,
    pub cached_tokens: u64,
    pub cache_creation_tokens: u64,
    pub completion_tokens: u64,
}

/// Session totals returned by the routing stats endpoint.
pub struct SessionStatsSnapshot {
    pub session_id: String,
    pub total_calls: u64,
    pub total_prompt_tokens: u64,
    pub total_cached_tokens: u64,
    pub total_cache_creation_tokens: u64,
    pub total_completion_tokens: u64,
    pub models: TextMap<SessionModelStats>,
}

/// What is counted.
#[derive(Clone, Copy, Debug, PartialEq, Eq, Structural)]
pub enum Measure {
    Calls,
    Prompt,
    Cached,
    CacheCreation,
    Completion,
}

/// How much one record contributes to a measure.
pub open spec fn amount(record: RoutingRecord, measure: Measure) -> int {
    match measure {
        Measure::Calls => 1,
        Measure::Prompt => record.prompt_tokens as int,
        Measure::Cached => record.cached_tokens as int,
        Measure::CacheCreation => record.cache_creation_tokens as int,
        Measure::Completion => record.completion_tokens as int,
    }
}

impl SessionModelStats {
    /// The stats of a model that was not called.
    pub open spec fn none() -> SessionModelStats {
        SessionModelStats {
            calls: 0,
            prompt_tokens: 0,
            cached_tokens: 0,
            cache_creation_tokens: 0,
            completion_tokens: 0,
        }
    }

    /// One of the counts.
    pub open spec fn measured(self, measure: Measure) -> u64 {
        match measure {
            Measure::Calls => self.calls,
            Measure::Prompt => self.prompt_tokens,
            Measure::Cached => self.cached_tokens,
            Measure::CacheCreation => self.cache_creation_tokens,
            Measure::Completion => self.completion_tokens,
        }
    }

    /// The stats after one more record.
    pub open spec fn plus(self, record: RoutingRecord) -> SessionModelStats {
        SessionModelStats {
            calls: capped(self.calls + 1),
            prompt_tokens: capped(self.prompt_tokens + record.prompt_tokens),
            cached_tokens: capped(self.cached_tokens + record.cached_tokens),
            cache_creation_tokens: capped(
                self.cache_creation_tokens + record.cache_creation_tokens,
            ),
            completion_tokens: capped(self.completion_tokens + record.completion_tokens),
        }
    }
}

/// Whether a record counts for a session: it names the session, and the call did not fail.
///
/// Records that do not say whether the call succeeded were all of served calls.
pub open spec fn counts(record: RoutingRecord, session: Seq<char>) -> bool {
    text_option(record.session_id) == Some(session) && record.success != Some(false)
}

/// The model under which a record is counted.
pub open spec fn model_of(record: RoutingRecord) -> Seq<char> {
    if record.model@.len() == 0 {
        "unknown"@
    } else {
        record.model@
    }
}

impl SessionStatsSnapshot {
    /// One of the session totals.
    pub open spec fn total(self, measure: Measure) -> u64 {
        match measure {
            Measure::Calls => self.total_calls,
            Measure::Prompt => self.total_prompt_tokens,
            Measure::Cached => self.total_cached_tokens,
            Measure::CacheCreation => self.total_cache_creation_tokens,
            Measure::Completion => self.total_completion_tokens,
        }
    }

    /// A session without records.
    pub fn new(session_id: &str) -> (snapshot: Self)
        ensures
            snapshot.session_id@ == session_id@,
            forall|measure: Measure| #[trigger] snapshot.total(measure) == 0,
            snapshot.models@ == Map::<Seq<char>, SessionModelStats>::empty(),
    {
        SessionStatsSnapshot {
            session_id: session_id.to_owned(),
            total_calls: 0,
            total_prompt_tokens: 0,
            total_cached_tokens: 0,
            total_cache_creation_tokens: 0,
            total_completion_tokens: 0,
            models: TextMap::new(),
        }
    }

    /// Counts a record under its model if it counts for the session.
    pub fn add_record(&mut self, record: &RoutingRecord, session_id: &str)
        ensures
            final(self).session_id == old(self).session_id,
            forall|measure: Measure| #[trigger]
                final(self).total(measure) == old(self).total(measure),
            final(self).models@ == if counts(*record, session_id@) {
                old(self).models@.insert(
                    model_of(*record),
                    (if old(self).models@.contains_key(model_of(*record)) {
                        old(self).models@[model_of(*record)]
                    } else {
                        SessionModelStats::none()
                    }).plus(*record),
                )
            } else {
                old(self).models@
            },
    {
        let named = match &record.session_id {
            Some(id) => same_text(id.as_str(), session_id),
            None => false,
        };
        if !named {
            return;
        }
        match record.success {
            Some(success) => if !success {
                return;
            },
            None => {},
        }
        proof {
            assert(""@.len() == 0) by {
                reveal_strlit("");
            }
            assert(record.model@.len() == 0 ==> record.model@ =~= ""@);
        }
        let model = if same_text(record.model.as_str(), "") {
            "unknown"
        } else {
            record.model.as_str()
        };
        let stats = match self.models.get(model) {
            Some(stats) => *stats,
            None => SessionModelStats {
                calls: 0,
                prompt_tokens: 0,
                cached_tokens: 0,
                cache_creation_tokens: 0,
                completion_tokens: 0,
            },
        };
        let next = SessionModelStats {
            calls: stats.calls.saturating_add(1),
            prompt_tokens: stats.prompt_tokens.saturating_add(record.prompt_tokens),
            cached_tokens: stats.cached_tokens.saturating_add(record.cached_tokens),
            cache_creation_tokens: stats.cache_creation_tokens.saturating_add(
                record.cache_creation_tokens,
            ),
            completion_tokens: stats.completion_tokens.saturating_add(record.completion_tokens),
        };
        self.models.insert(model.to_owned(), next);
    }

    /// Adds the per-model stats to the session totals.
    pub fn sum_totals(&mut self)
        ensures
            final(self).session_id == old(self).session_id,
            final(self).models == old(self).models,
            is_listing(final(self).models.listing(), final(self).models@),
            forall|measure: Measure| #[trigger]
                final(self).total(measure) == capped(
                    old(self).total(measure) + listed_sum(old(self).models.listing(), measure),
                ),
    {
        let ghost listing = self.models.listing();
        let count = self.models.len();
        let mut calls = self.total_calls;
        let mut prompt = self.total_prompt_tokens;
        let mut cached = self.total_cached_tokens;
        let mut creation = self.total_cache_creation_tokens;
        let mut completion = self.total_completion_tokens;
        let mut i: usize = 0;
        assert(listing.take(0) =~= Seq::<(Seq<char>, SessionModelStats)>::empty());
        while i < count
            invariant
                i <= count,
                count == listing.len(),
                listing == self.models.listing(),
                calls == capped(
                    self.total_calls + listed_sum(listing.take(i as int), Measure::Calls),
                ),
                prompt == capped(
                    self.total_prompt_tokens + listed_sum(listing.take(i as int), Measure::Prompt),
                ),
                cached == capped(
                    self.total_cached_tokens + listed_sum(listing.take(i as int), Measure::Cached),
                ),
                creation == capped(
                    self.total_cache_creation_tokens + listed_sum(
                        listing.take(i as int),
                        Measure::CacheCreation,
                    ),
                ),
                completion == capped(
                    self.total_completion_tokens + listed_sum(
                        listing.take(i as int),
                        Measure::Completion,
                    ),
                ),
            decreases count - i,
        {
            let stats = self.models.value_at(i);
            proof {
                assert(listing.take(i + 1).drop_last() =~= listing.take(i as int));
                assert(listing.take(i + 1).last() == listing[i as int]);
                lemma_listed_sum_sign(listing.take(i as int), Measure::Calls);
                lemma_listed_sum_sign(listing.take(i as int), Measure::Prompt);
                lemma_listed_sum_sign(listing.take(i as int), Measure::Cached);
                lemma_listed_sum_sign(listing.take(i as int), Measure::CacheCreation);
                lemma_listed_sum_sign(listing.take(i as int), Measure::Completion);
            }
            calls = calls.saturating_add(stats.calls);
            prompt = prompt.saturating_add(stats.prompt_tokens);
            cached = cached.saturating_add(stats.cached_tokens);
            creation = creation.saturating_add(stats.cache_creation_tokens);
            completion = completion.saturating_add(stats.completion_tokens);
            i = i + 1;
        }
        assert(listing.take(i as int) =~= listing);
        self.total_calls = calls;
        self.total_prompt_tokens = prompt;
        self.total_cached_tokens = cached;
        self.total_cache_creation_tokens = creation;
        self.total_completion_tokens = completion;
    }
}

/// The sum of one count over listed models.
pub open spec fn listed_sum(listing: Seq<(Seq<char>, SessionModelStats)>, measure: Measure) -> int
    decreases listing.len(),
{
    if listing.len() == 0 {
        0
    } else {
        listed_sum(listing.drop_last(), measure) + listing.last().1.measured(measure)
    }
}

proof fn lemma_listed_sum_sign(listing: Seq<(Seq<char>, SessionModelStats)>, measure: Measure)
    ensures
        listed_sum(listing, measure) >= 0,
    decreases listing.len(),
{
    if listing.len() > 0 {
        lemma_listed_sum_sign(listing.drop_last(), measure);
    }
}

/// How much a session's records for one model add up to.
pub open spec fn tally(
    records: Seq<RoutingRecord>,
    session: Seq<char>,
    model: Seq<char>,
    measure: Measure,
) -> int
    decreases records.len(),
{
    if records.len() == 0 {
        0
    } else {
        tally(records.drop_last(), session, model, measure) + if counts(records.last(), session)
            && model_of(records.last()) == model {
            amount(records.last(), measure)
        } else {
            0
        }
    }
}

/// How much a session's records add up to.
pub open spec fn grand_tally(records: Seq<RoutingRecord>, session: Seq<char>, measure: Measure) -> int
    decreases records.len(),
{
    if records.len() == 0 {
        0
    } else {
        grand_tally(records.drop_last(), session, measure) + if counts(records.last(), session) {
            amount(records.last(), measure)
        } else {
            0
        }
    }
}

/// Whether some record counts for the session under the model.
pub open spec fn served(records: Seq<RoutingRecord>, session: Seq<char>, model: Seq<char>) -> bool {
    exists|i: int|
        0 <= i < records.len() && counts(#[trigger] records[i], session) && model_of(records[i])
            == model
}

/// Whether `models` holds exactly the tallies of the records.
pub open spec fn holds_tallies(
    models: Map<Seq<char>, SessionModelStats>,
    records: Seq<RoutingRecord>,
    session: Seq<char>,
) -> bool {
    &&& forall|model: Seq<char>| #[trigger]
        models.contains_key(model) == served(records, session, model)
    &&& forall|model: Seq<char>, measure: Measure|
        models.contains_key(model) ==> #[trigger] models[model].measured(measure) == capped(
            tally(records, session, model, measure),
        )
}

proof fn lemma_tally_sign(
    records: Seq<RoutingRecord>,
    session: Seq<char>,
    model: Seq<char>,
    measure: Measure,
)
    ensures
        tally(records, session, model, measure) >= 0,
        !served(records, session, model) ==> tally(records, session, model, measure) == 0,
    decreases records.len(),
{
    if records.len() > 0 {
        let front = records.drop_last();
        lemma_tally_sign(front, session, model, measure);
        if !served(records, session, model) {
            if served(front, session, model) {
                let i = choose|i: int|
                    0 <= i < front.len() && counts(#[trigger] front[i], session) && model_of(
                        front[i],
                    ) == model;
                assert(records[i] == front[i]);
            }
            assert(!(counts(records[records.len() - 1], session) && model_of(records.last())
                == model));
        }
    }
}

proof fn lemma_served_step(
    records: Seq<RoutingRecord>,
    session: Seq<char>,
    model: Seq<char>,
    i: int,
)
    requires
        0 <= i < records.len(),
    ensures
        served(records.take(i + 1), session, model) == (served(records.take(i), session, model) || (
        counts(records[i], session) && model_of(records[i]) == model)),
{
    let front = records.take(i);
    let all = records.take(i + 1);
    assert(all[i] == records[i]);
    if served(front, session, model) {
        let j = choose|j: int|
            0 <= j < front.len() && counts(#[trigger] front[j], session) && model_of(front[j])
                == model;
        assert(all[j] == front[j]);
    }
    if served(all, session, model) {
        let j = choose|j: int|
            0 <= j < all.len() && counts(#[trigger] all[j], session) && model_of(all[j]) == model;
        if j < i {
            assert(front[j] == all[j]);
        }
    }
}

proof fn lemma_tallies_step(
    models: Map<Seq<char>, SessionModelStats>,
    next: Map<Seq<char>, SessionModelStats>,
    records: Seq<RoutingRecord>,
    session: Seq<char>,
    i: int,
)
    requires
        0 <= i < records.len(),
        holds_tallies(models, records.take(i), session),
        next == if counts(records[i], session) {
            models.insert(
                model_of(records[i]),
                (if models.contains_key(model_of(records[i])) {
                    models[model_of(records[i])]
                } else {
                    SessionModelStats::none()
                }).plus(records[i]),
            )
        } else {
            models
        },
    ensures
        holds_tallies(next, records.take(i + 1), session),
{
    let record = records[i];
    assert(records.take(i + 1).drop_last() =~= records.take(i));
    assert(records.take(i + 1).last() == record);
    assert forall|model: Seq<char>| #[trigger] next.contains_key(model) == served(
        records.take(i + 1),
        session,
        model,
    ) by {
        lemma_served_step(records, session, model, i);
    }
    assert forall|model: Seq<char>, measure: Measure|
        next.contains_key(model) implies #[trigger] next[model].measured(measure) == capped(
        tally(records.take(i + 1), session, model, measure),
    ) by {
        lemma_tally_sign(records.take(i), session, model, measure);
        if models.contains_key(model) {
            assert(models[model].measured(measure) == capped(
                tally(records.take(i), session, model, measure),
            ));
        }
    }
}

/// The sum of the tallies of several models.
spec fn tallies(
    keys: Seq<Seq<char>>,
    records: Seq<RoutingRecord>,
    session: Seq<char>,
    measure: Measure,
) -> int
    decreases keys.len(),
{
    if keys.len() == 0 {
        0
    } else {
        tallies(keys.drop_last(), records, session, measure) + tally(
            records,
            session,
            keys.last(),
            measure,
        )
    }
}

/// One more record adds its amount to the tallies of distinct keys once, if its model is a key.
proof fn lemma_tallies_add(
    keys: Seq<Seq<char>>,
    records: Seq<RoutingRecord>,
    session: Seq<char>,
    measure: Measure,
)
    requires
        keys.no_duplicates(),
        records.len() > 0,
    ensures
        tallies(keys, records, session, measure) == tallies(
            keys,
            records.drop_last(),
            session,
            measure,
        ) + if counts(records.last(), session) && keys.contains(model_of(records.last())) {
            amount(records.last(), measure)
        } else {
            0
        },
    decreases keys.len(),
{
    if keys.len() > 0 {
        let front = keys.drop_last();
        let model = model_of(records.last());
        assert(front.no_duplicates());
        lemma_tallies_add(front, records, session, measure);
        if keys.contains(model) {
            let i = choose|i: int| 0 <= i < keys.len() && keys[i] == model;
            if i < front.len() {
                assert(front[i] == model);
                assert(keys[keys.len() - 1] != model);
            } else if front.contains(model) {
                let j = choose|j: int| 0 <= j < front.len() && front[j] == model;
                assert(keys[j] == model);
            }
        } else {
            if front.contains(model) {
                let j = choose|j: int| 0 <= j < front.len() && front[j] == model;
                assert(keys[j] == model);
            }
            assert(keys[keys.len() - 1] != model);
        }
    }
}

/// The tallies of all models of the records add up to the grand tally.
proof fn lemma_tallies_are_all(
    keys: Seq<Seq<char>>,
    records: Seq<RoutingRecord>,
    session: Seq<char>,
    measure: Measure,
)
    requires
        keys.no_duplicates(),
        forall|i: int|
            0 <= i < records.len() && counts(#[trigger] records[i], session) ==> keys.contains(
                model_of(records[i]),
            ),
    ensures
        tallies(keys, records, session, measure) == grand_tally(records, session, measure),
    decreases records.len(),
{
    if records.len() > 0 {
        let front = records.drop_last();
        assert forall|i: int| 0 <= i < front.len() && counts(#[trigger] front[i], session) implies
            keys.contains(model_of(front[i])) by {
            assert(records[i] == front[i]);
        }
        lemma_tallies_are_all(keys, front, session, measure);
        lemma_tallies_add(keys, records, session, measure);
        assert(records.last() == records[records.len() - 1]);
    } else {
        lemma_no_tallies(keys, records, session, measure);
    }
}

proof fn lemma_no_tallies(
    keys: Seq<Seq<char>>,
    records: Seq<RoutingRecord>,
    session: Seq<char>,
    measure: Measure,
)
    requires
        records.len() == 0,
    ensures
        tallies(keys, records, session, measure) == 0,
    decreases keys.len(),
{
    if keys.len() > 0 {
        lemma_no_tallies(keys.drop_last(), records, session, measure);
    }
}

/// Capping each tally does not change the capped sum.
proof fn lemma_listed_tallies(
    listing: Seq<(Seq<char>, SessionModelStats)>,
    keys: Seq<Seq<char>>,
    records: Seq<RoutingRecord>,
    session: Seq<char>,
    measure: Measure,
)
    requires
        keys.len() == listing.len(),
        forall|i: int| 0 <= i < listing.len() ==> (#[trigger] keys[i]) == listing[i].0,
        forall|i: int|
            0 <= i < listing.len() ==> (#[trigger] listing[i]).1.measured(measure) == capped(
                tally(records, session, listing[i].0, measure),
            ),
    ensures
        capped(listed_sum(listing, measure)) == capped(tallies(keys, records, session, measure)),
        listed_sum(listing, measure) <= tallies(keys, records, session, measure),
        0 <= listed_sum(listing, measure),
    decreases listing.len(),
{
    if listing.len() > 0 {
        let front = listing.drop_last();
        assert forall|i: int| 0 <= i < front.len() implies (#[trigger] front[i]).1.measured(measure)
            == capped(tally(records, session, front[i].0, measure)) by {
            assert(front[i] == listing[i]);
        }
        assert forall|i: int| 0 <= i < front.len() implies (#[trigger] keys.drop_last()[i])
            == front[i].0 by {
            assert(keys[i] == listing[i].0);
        }
        lemma_listed_tallies(front, keys.drop_last(), records, session, measure);
        lemma_tally_sign(records, session, listing.last().0, measure);
        assert(keys[keys.len() - 1] == listing.last().0);
        assert(listing[listing.len() - 1].1.measured(measure) == capped(
            tally(records, session, listing.last().0, measure),
        ));
    }
}

/// The totals of one session over complete records, or none if no record counts for it.
pub fn snapshot(records: &Vec<RoutingRecord>, session_id: &str) -> (r: Option<SessionStatsSnapshot>)
    ensures
        match r {
            Some(snapshot) => {
                &&& grand_tally(records@, session_id@, Measure::Calls) > 0
                &&& snapshot.session_id@ == session_id@
                &&& holds_tallies(snapshot.models@, records@, session_id@)
                &&& forall|measure: Measure| #[trigger]
                    snapshot.total(measure) == capped(grand_tally(records@, session_id@, measure))
            },
            None => grand_tally(records@, session_id@, Measure::Calls) == 0,
        },
{
    let mut stats = SessionStatsSnapshot::new(session_id);
    let mut i: usize = 0;
    assert(records@.take(0) =~= Seq::<RoutingRecord>::empty());
    while i < records.len()
        invariant
            i <= records@.len(),
            stats.session_id@ == session_id@,
            forall|measure: Measure| #[trigger] stats.total(measure) == 0,
            holds_tallies(stats.models@, records@.take(i as int), session_id@),
        decreases records.len() - i,
    {
        let ghost models = stats.models@;
        stats.add_record(&records[i], session_id);
        proof {
            lemma_tallies_step(models, stats.models@, records@, session_id@, i as int);
        }
        i = i + 1;
    }
    assert(records@.take(i as int) =~= records@);
    let ghost models = stats.models@;
    let ghost listing = stats.models.listing();
    stats.sum_totals();
    proof {
        let keys = listing.map_values(|entry: (Seq<char>, SessionModelStats)| entry.0);
        crate::tables::lemma_listing_distinct(listing, models);
        assert forall|measure: Measure| #[trigger] stats.total(measure) == capped(
            grand_tally(records@, session_id@, measure),
        ) by {
            assert forall|k: int| 0 <= k < listing.len() implies (
            #[trigger] listing[k]).1.measured(measure) == capped(
                tally(records@, session_id@, listing[k].0, measure),
            ) by {
                assert(models[listing[k].0].measured(measure) == capped(
                    tally(records@, session_id@, listing[k].0, measure),
                ));
            }
            lemma_listed_tallies(listing, keys, records@, session_id@, measure);
            assert forall|k: int| 0 <= k < records@.len() && counts(
                #[trigger] records@[k],
                session_id@,
            ) implies keys.contains(model_of(records@[k])) by {
                assert(served(records@, session_id@, model_of(records@[k])));
                assert(models.contains_key(model_of(records@[k])));
                let j = choose|j: int|
                    0 <= j < listing.len() && (#[trigger] listing[j]).0 == model_of(records@[k]);
                assert(keys[j] == model_of(records@[k]));
            }
            lemma_tallies_are_all(keys, records@, session_id@, measure);
        }
        assert(stats.total(Measure::Calls) == stats.total_calls);
        lemma_grand_tally_sign(records@, session_id@);
    }
    if stats.total_calls > 0 {
        Some(stats)
    } else {
        None
    }
}

proof fn lemma_grand_tally_sign(records: Seq<RoutingRecord>, session: Seq<char>)
    ensures
        grand_tally(records, session, Measure::Calls) >= 0,
    decreases records.len(),
{
    if records.len() > 0 {
        lemma_grand_tally_sign(records.drop_last(), session);
    }
}

// ── Bandit arms ─────────────────────────────────────────────────────────────

/// Aggregated reward for one bandit arm, a model and token bucket.
#[derive(Clone, Copy, Debug, PartialEq, Eq, Structural)]
pub struct RewardSummary {
    /// Number of answer calls recorded for the arm.
    pub count: u64,
    /// Sum of their rewards.
    pub sum_reward: Binary64,
}

/// The arm that a record is an outcome of: only answer calls with a reward, a bucket and a model
/// are.
pub open spec fn arm_of(record: RoutingRecord) -> Option<(Seq<char>, Seq<char>)> {
    if record.reward is Some && record.model@.len() > 0 && record.tier@ != "classifier"@ {
        match record.token_bucket {
            Some(bucket) => Some((record.model@, bucket@)),
            None => None,
        }
    } else {
        None
    }
}

/// How many records are outcomes of the arm.
pub open spec fn arm_count(records: Seq<RoutingRecord>, arm: (Seq<char>, Seq<char>)) -> int
    decreases records.len(),
{
    if records.len() == 0 {
        0
    } else {
        arm_count(records.drop_last(), arm) + if arm_of(records.last()) == Some(arm) {
            1int
        } else {
            0
        }
    }
}

/// The rewards of the arm's outcomes, added up in order from zero.
pub open spec fn arm_reward(records: Seq<RoutingRecord>, arm: (Seq<char>, Seq<char>)) -> Binary64
    decreases records.len(),
{
    if records.len() == 0 {
        Binary64::of(ZERO)
    } else if arm_of(records.last()) == Some(arm) {
        arm_reward(records.drop_last(), arm).plus(records.last().reward->0)
    } else {
        arm_reward(records.drop_last(), arm)
    }
}

/// Whether `arms` summarizes exactly the arms that the records are outcomes of.
pub open spec fn summarizes(
    arms: Map<(Seq<char>, Seq<char>), RewardSummary>,
    records: Seq<RoutingRecord>,
) -> bool {
    forall|arm: (Seq<char>, Seq<char>)|
        {
            &&& #[trigger] arms.contains_key(arm) == (arm_count(records, arm) > 0)
            &&& arms.contains_key(arm) ==> arms[arm] == (RewardSummary {
                count: capped(arm_count(records, arm)),
                sum_reward: arm_reward(records, arm),
            })
        }
}

proof fn lemma_arm_count_sign(records: Seq<RoutingRecord>, arm: (Seq<char>, Seq<char>))
    ensures
        arm_count(records, arm) >= 0,
        arm_count(records, arm) == 0 ==> arm_reward(records, arm) == Binary64::of(ZERO),
    decreases records.len(),
{
    if records.len() > 0 {
        lemma_arm_count_sign(records.drop_last(), arm);
    }
}

/// Aggregates answer-call rewards per model and token bucket.
///
/// Only answer calls carry a reward, so classifier calls and older records are skipped. The arms
/// are listed in the order of models and buckets.
pub fn reward_summary(records: &Vec<RoutingRecord>) -> (arms: PairMap<RewardSummary>)
    ensures
        summarizes(arms@, records@),
        pairs_in_order(arms.keys()),
{
    let mut arms: PairMap<RewardSummary> = PairMap::new();
    let mut i: usize = 0;
    assert(records@.take(0) =~= Seq::<RoutingRecord>::empty());
    while i < records.len()
        invariant
            i <= records@.len(),
            summarizes(arms@, records@.take(i as int)),
            pairs_in_order(arms.keys()),
        decreases records.len() - i,
    {
        let record = &records[i];
        let ghost before = arms@;
        let ghost front = records@.take(i as int);
        proof {
            assert(records@.take(i + 1).drop_last() =~= front);
            assert(records@.take(i + 1).last() == *record);
            assert(""@.len() == 0) by {
                reveal_strlit("");
            }
            assert(record.model@.len() == 0 ==> record.model@ =~= ""@);
        }
        if !same_text(record.model.as_str(), "") && !same_text(record.tier.as_str(), "classifier") {
            if let (Some(reward), Some(bucket)) = (record.reward, &record.token_bucket) {
                let ghost key = (record.model@, bucket@);
                let arm = match arms.get(record.model.as_str(), bucket.as_str()) {
                    Some(arm) => *arm,
                    None => RewardSummary { count: 0, sum_reward: Binary64::of(ZERO) },
                };
                proof {
                    lemma_arm_count_sign(front, key);
                }
                let next = RewardSummary {
                    count: arm.count.saturating_add(1),
                    sum_reward: arm.sum_reward.add(reward),
                };
                arms.insert(record.model.clone(), bucket.clone(), next);
                assert(arm_of(*record) == Some(key));
            }
        }
        proof {
            let all = records@.take(i + 1);
            assert forall|arm: (Seq<char>, Seq<char>)|
                {
                    &&& #[trigger] arms@.contains_key(arm) == (arm_count(all, arm) > 0)
                    &&& arms@.contains_key(arm) ==> arms@[arm] == (RewardSummary {
                        count: capped(arm_count(all, arm)),
                        sum_reward: arm_reward(all, arm),
                    })
                } by {
                lemma_arm_count_sign(front, arm);
                assert(before.contains_key(arm) == (arm_count(front, arm) > 0));
            }
        }
        i = i + 1;
    }
    assert(records@.take(i as int) =~= records@);
    arms
}

// ── Laws ────────────────────────────────────────────────────────────────────

/// The value of a small pattern doubles with the pattern.
pub proof fn lemma_small_doubled(m: int)
    requires
        0 <= m < HIDDEN_BIT,
    ensures
        scaled(2 * m) == 2 * scaled(m),
{
    lemma2_to64();
    let double = 2 * m;
    if double >= HIDDEN_BIT {
        assert(double / HIDDEN_BIT as int == 1 && double % (HIDDEN_BIT as int) == double
            - HIDDEN_BIT);
        assert((HIDDEN_BIT + (double - HIDDEN_BIT)) * pow2(0) == double) by (nonlinear_arith)
            requires
                pow2(0) == 1,
        ;
    }
}

/// The value of a pattern one exponent up is twice as large.
pub proof fn lemma_doubled(m: int)
    requires
        m >= HIDDEN_BIT,
    ensures
        scaled(m + HIDDEN_BIT) == 2 * scaled(m),
{
    let exponent = m / HIDDEN_BIT as int;
    let fraction = m % (HIDDEN_BIT as int);
    assert((m + HIDDEN_BIT) / HIDDEN_BIT as int == exponent + 1 && (m + HIDDEN_BIT) % (
    HIDDEN_BIT as int) == fraction);
    lemma_pow2_unfold(exponent as nat);
    let p = pow2((exponent - 1) as nat) as int;
    assert((HIDDEN_BIT + fraction) * (2 * p) == 2 * ((HIDDEN_BIT + fraction) * p))
        by (nonlinear_arith);
}

/// The ratio of a non-negative amount to a scale, rounded.
#[verifier::rlimit(30)]
proof fn lemma_ratio_value(amount: Binary64, scale: u64)
    requires
        amount.finite(),
        amount.value() >= 0,
        0 < scale < INFINITY_BITS,
    ensures
        amount.over(Binary64::of(scale)) == signed(
            amount.negative(),
            nearest(scaled(amount.magnitude()) * pow2(1074), scaled(scale as int)),
        ),
        !amount.over(Binary64::of(scale)).nan(),
        amount.over(Binary64::of(scale)).value() == scaled(
            nearest(scaled(amount.magnitude()) * pow2(1074), scaled(scale as int)),
        ),
{
    let n = scaled(amount.magnitude()) * pow2(1074);
    let d = scaled(scale as int);
    assert(scaled(0) == 0);
    lemma_scaled_increases(0, scale as int);
    lemma_nearest_exists(n, d);
    if amount.magnitude() > 0 {
        lemma_scaled_increases(0, amount.magnitude());
    } else {
        assert(n == 0) by (nonlinear_arith)
            requires
                n == scaled(amount.magnitude()) * pow2(1074),
                scaled(amount.magnitude()) == 0,
        ;
        assert(d * scaled(0) == 0);
        lemma_nearest_exact(0, d);
    }
}

/// The share of a non-negative amount lies between 0 and 1.
proof fn lemma_share(amount: Binary64, scale: u64)
    requires
        amount.finite(),
        amount.value() >= 0,
        0 < scale < INFINITY_BITS,
    ensures
        share(amount, scale).finite(),
        share(amount, scale).value() >= 0,
        share(amount, scale).at_most(Binary64::of(ONE)),
{
    let one = Binary64::of(ONE);
    let ratio = amount.over(Binary64::of(scale));
    assert(scaled(0) == 0);
    lemma_scaled_increases(0, one.magnitude());
    lemma_ratio_value(amount, scale);
    let n = scaled(amount.magnitude()) * pow2(1074);
    lemma_nearest_exists(n, scaled(scale as int));
    if nearest(n, scaled(scale as int)) > 0 {
        lemma_scaled_increases(0, nearest(n, scaled(scale as int)));
    }
    if !one.less(ratio) {
        lemma_below_finite(ratio, one);
    }
}

/// What is not used of a share lies between 0 and 1 and is not negative.
#[verifier::rlimit(30)]
proof fn lemma_unused(used: Binary64)
    requires
        used.finite(),
        used.value() >= 0,
        used.at_most(Binary64::of(ONE)),
    ensures
        Binary64::of(ONE).minus(used).finite(),
        !Binary64::of(ONE).minus(used).negative(),
        Binary64::of(ONE).minus(used).at_most(Binary64::of(ONE)),
        Binary64::of(ZERO).at_most(Binary64::of(ONE).minus(used)),
{
    let zero = Binary64::of(ZERO);
    let one = Binary64::of(ONE);
    let unused = one.minus(used);
    assert(scaled(0) == 0);
    lemma_scaled_increases(0, one.magnitude());
    assert(used.negation().finite() && used.negation().value() == -used.value());
    assert(zero.negation().finite() && zero.negation().value() == 0);
    lemma_sum_value(one, used.negation());
    let exact = one.value() - used.value();
    lemma_nearest_exists(exact, 1);
    lemma_nearest_exact(0, 1);
    lemma_nearest_exact(one.magnitude(), 1);
    assert(1 * scaled(0) == 0 && 1 * scaled(one.magnitude()) == scaled(one.magnitude()));
    law_subtraction_is_antitone(zero, used, one);
    lemma_sum_value(one, zero.negation());
    assert(one.minus(zero).value() == one.value());
    if nearest(exact, 1) > 0 {
        lemma_scaled_increases(0, nearest(exact, 1));
    }
    lemma_below_finite(unused, one);
    assert(unused == if exact == 0 {
        signed(one.negative() && used.negation().negative(), 0)
    } else {
        signed(false, nearest(exact, 1))
    });
}

/// The reward for thrift lies between 0 and the weight.
#[verifier::rlimit(30)]
proof fn lemma_thrift(amount: Binary64, scale: u64)
    requires
        amount.finite(),
        amount.value() >= 0,
        0 < scale < INFINITY_BITS,
    ensures
        thrift(amount, scale).finite(),
        Binary64::of(ZERO).at_most(thrift(amount, scale)),
        thrift(amount, scale).at_most(Binary64::of(REWARD_WEIGHT)),
{
    reveal(thrift);
    let zero = Binary64::of(ZERO);
    let one = Binary64::of(ONE);
    let weight = Binary64::of(REWARD_WEIGHT);
    let unused = one.minus(share(amount, scale));
    let d = pow2(1074) as int;
    lemma_share(amount, scale);
    lemma_unused(share(amount, scale));
    lemma_pow2_pos(1074);
    assert(scaled(0) == 0);
    lemma_scaled_increases(0, weight.magnitude());
    law_multiplication_is_monotone(zero, unused, weight);
    law_multiplication_is_monotone(unused, one, weight);
    crate::thompson::lemma_one();
    assert(scaled(one.magnitude()) * scaled(weight.magnitude()) == d * scaled(weight.magnitude()));
    lemma_nearest_exact(weight.magnitude(), d);
    assert(one.times(weight) == weight);
    assert(scaled(zero.magnitude()) * scaled(weight.magnitude()) == 0) by (nonlinear_arith)
        requires
            scaled(zero.magnitude()) == 0,
    ;
    lemma_nearest_exact(0, d);
    assert(d * scaled(0) == 0);
    assert(zero.times(weight) == zero);
    lemma_below_finite(unused.times(weight), weight);
}

/// Twice the weight plus the part for success is exactly one.
#[verifier::rlimit(30)]
proof fn lemma_best_reward()
    ensures
        Binary64::of(REWARD_WEIGHT).plus(Binary64::of(REWARD_WEIGHT)).finite(),
        Binary64::of(REWARD_WEIGHT).plus(Binary64::of(REWARD_WEIGHT)).plus(
            Binary64::of(REWARD_FOR_SUCCESS),
        ).value() == Binary64::of(ONE).value(),
{
    let weight = Binary64::of(REWARD_WEIGHT);
    let success = Binary64::of(REWARD_FOR_SUCCESS);
    let one = Binary64::of(ONE);
    let double = REWARD_WEIGHT + HIDDEN_BIT;
    assert(scaled(0) == 0);
    lemma_doubled(REWARD_WEIGHT as int);
    lemma_scaled_increases(0, REWARD_WEIGHT as int);
    lemma_nearest_exact(double, 1);
    assert(1 * scaled(double) == scaled(double));
    let both = weight.plus(weight);
    lemma_sum_value(weight, weight);
    assert(both == signed(false, double));
    assert(both.magnitude() == double && both.finite() && both.value() == scaled(double));
    let p = pow2(1020) as int;
    lemma_pow2_unfold(1021);
    lemma_pow2_unfold(1022);
    assert(double == 0x3FE3_3333_3333_3333);
    assert(scaled(double) == 0x13_3333_3333_3333 * pow2(1021));
    assert(scaled(success.magnitude()) == 0x19_9999_9999_999A * pow2(1020));
    assert(scaled(one.magnitude()) == 0x10_0000_0000_0000 * pow2(1022));
    assert(scaled(double) + scaled(success.magnitude()) == scaled(one.magnitude()));
    lemma_sum_value(both, success);
    lemma_nearest_exact(one.magnitude(), 1);
    assert(1 * scaled(one.magnitude()) == scaled(one.magnitude()));
}

/// Two amounts between zero and a bound, added up, lie between zero and twice the bound.
#[verifier::spinoff_prover]
proof fn lemma_sum_between(a: Binary64, b: Binary64, bound: Binary64)
    requires
        a.finite(),
        b.finite(),
        bound.finite(),
        a.value() >= 0,
        b.value() >= 0,
        a.at_most(bound),
        b.at_most(bound),
    ensures
        !a.plus(b).nan(),
        a.plus(b).value() >= 0,
        a.plus(b).at_most(bound.plus(bound)),
{
    law_addition_is_monotone(a, bound, b);
    law_addition_is_monotone(b, bound, bound);
    law_addition_commutes(b, bound);
    lemma_sum_value(a, b);
    lemma_rounded_sign(a.value() + b.value());
}

/// Two amounts between zero and the weight, added up, stay below twice the weight.
#[verifier::spinoff_prover]
proof fn lemma_both_thrifts(a: Binary64, b: Binary64)
    requires
        a.finite(),
        b.finite(),
        Binary64::of(ZERO).at_most(a),
        Binary64::of(ZERO).at_most(b),
        a.at_most(Binary64::of(REWARD_WEIGHT)),
        b.at_most(Binary64::of(REWARD_WEIGHT)),
    ensures
        a.plus(b).finite(),
        Binary64::of(ZERO).at_most(a.plus(b)),
        a.plus(b).at_most(Binary64::of(REWARD_WEIGHT).plus(Binary64::of(REWARD_WEIGHT))),
{
    let weight = Binary64::of(REWARD_WEIGHT);
    assert(scaled(0) == 0);
    lemma_best_reward();
    lemma_sum_between(a, b, weight);
    lemma_below_finite(a.plus(b), weight.plus(weight));
}

/// An amount between zero and twice the weight, with the part for success, lies between that part
/// and one.
#[verifier::rlimit(30)]
proof fn lemma_with_success(thrifts: Binary64)
    requires
        thrifts.finite(),
        Binary64::of(ZERO).at_most(thrifts),
        thrifts.at_most(Binary64::of(REWARD_WEIGHT).plus(Binary64::of(REWARD_WEIGHT))),
    ensures
        thrifts.plus(Binary64::of(REWARD_FOR_SUCCESS)).within(
            Binary64::of(ZERO),
            Binary64::of(ONE),
        ),
        Binary64::of(REWARD_FOR_SUCCESS).at_most(thrifts.plus(Binary64::of(REWARD_FOR_SUCCESS))),
{
    let zero = Binary64::of(ZERO);
    let weight = Binary64::of(REWARD_WEIGHT);
    let bonus = Binary64::of(REWARD_FOR_SUCCESS);
    assert(scaled(0) == 0);
    lemma_best_reward();
    lemma_scaled_increases(0, bonus.magnitude());
    law_addition_is_monotone(thrifts, weight.plus(weight), bonus);
    law_addition_is_monotone(zero, thrifts, bonus);
    law_addition_commutes(zero, bonus);
    law_zero_is_neutral(bonus);
}

/// A successful call that cost and took no negative amount earns between 0.4 and 1; a failed call
/// earns 0.
pub proof fn law_rewards_lie_between_zero_and_one(
    cost_usd: Option<Binary64>,
    latency_ms: Binary64,
    success: bool,
)
    requires
        latency_ms.finite(),
        latency_ms.value() >= 0,
        cost_usd matches Some(cost) ==> cost.finite() && cost.value() >= 0,
    ensures
        reward_of(cost_usd, latency_ms, success).within(Binary64::of(ZERO), Binary64::of(ONE)),
        success ==> Binary64::of(REWARD_FOR_SUCCESS).at_most(
            reward_of(cost_usd, latency_ms, success),
        ),
        !success ==> reward_of(cost_usd, latency_ms, success) == Binary64::of(ZERO),
{
    let zero = Binary64::of(ZERO);
    assert(scaled(0) == 0);
    if success {
        let cost = match cost_usd {
            Some(cost) => cost,
            None => zero,
        };
        let a = thrift(cost, REWARD_COST_SCALE_USD);
        let b = thrift(latency_ms, REWARD_LATENCY_BUDGET_MS);
        lemma_thrift(cost, REWARD_COST_SCALE_USD);
        lemma_thrift(latency_ms, REWARD_LATENCY_BUDGET_MS);
        lemma_both_thrifts(a, b);
        lemma_with_success(a.plus(b));
    } else {
        lemma_scaled_increases(0, Binary64::of(ONE).magnitude());
    }
}

/// A larger amount is a larger share.
#[verifier::rlimit(30)]
proof fn lemma_share_grows(less: Binary64, more: Binary64, scale: u64)
    requires
        less.finite(),
        more.finite(),
        less.value() >= 0,
        less.at_most(more),
        0 < scale < INFINITY_BITS,
    ensures
        share(less, scale).at_most(share(more, scale)),
{
    let unit = pow2(1074) as int;
    let d = scaled(scale as int);
    let n1 = scaled(less.magnitude()) * pow2(1074);
    let n2 = scaled(more.magnitude()) * pow2(1074);
    assert(scaled(0) == 0);
    lemma_pow2_pos(1074);
    lemma_scaled_increases(0, scale as int);
    lemma_share(less, scale);
    lemma_share(more, scale);
    if less.magnitude() > 0 {
        lemma_scaled_increases(0, less.magnitude());
    }
    if more.magnitude() > 0 {
        lemma_scaled_increases(0, more.magnitude());
    }
    assert(n1 <= n2) by (nonlinear_arith)
        requires
            n1 == scaled(less.magnitude()) * unit,
            n2 == scaled(more.magnitude()) * unit,
            scaled(less.magnitude()) <= scaled(more.magnitude()),
            unit > 0,
    ;
    lemma_nearest_exists(n1, d);
    lemma_nearest_exists(n2, d);
    lemma_nearest_monotone(n1, n2, d);
    lemma_ratio_value(less, scale);
    lemma_ratio_value(more, scale);
    if nearest(n1, d) < nearest(n2, d) {
        lemma_scaled_increases(nearest(n1, d), nearest(n2, d));
    }
}

/// An amount at or beyond the scale has the share one.
#[verifier::rlimit(30)]
proof fn lemma_full_share(amount: Binary64, scale: u64)
    requires
        amount.finite(),
        0 < scale < INFINITY_BITS,
        Binary64::of(scale).at_most(amount),
    ensures
        share(amount, scale) == Binary64::of(ONE),
{
    let one = Binary64::of(ONE);
    let unit = pow2(1074) as int;
    let d = scaled(scale as int);
    let n = scaled(amount.magnitude()) * pow2(1074);
    assert(scaled(0) == 0);
    lemma_pow2_pos(1074);
    lemma_scaled_increases(0, scale as int);
    assert(amount.value() > 0 && !amount.negative());
    assert(d * unit <= n) by (nonlinear_arith)
        requires
            n == scaled(amount.magnitude()) * unit,
            d <= scaled(amount.magnitude()),
            unit > 0,
    ;
    crate::thompson::lemma_one();
    lemma_nearest_exact(one.magnitude(), d);
    lemma_nearest_monotone(d * unit, n, d);
    lemma_nearest_exists(n, d);
    lemma_ratio_value(amount, scale);
    if one.magnitude() < nearest(n, d) {
        lemma_scaled_increases(one.magnitude(), nearest(n, d));
    }
}

/// A larger amount earns less.
#[verifier::rlimit(30)]
proof fn lemma_thrift_falls(less: Binary64, more: Binary64, scale: u64)
    requires
        less.finite(),
        more.finite(),
        less.value() >= 0,
        less.at_most(more),
        0 < scale < INFINITY_BITS,
    ensures
        thrift(more, scale).at_most(thrift(less, scale)),
{
    reveal(thrift);
    let one = Binary64::of(ONE);
    lemma_share(less, scale);
    lemma_share(more, scale);
    lemma_share_grows(less, more, scale);
    lemma_unused(share(less, scale));
    lemma_unused(share(more, scale));
    lemma_weight_falls(share(less, scale), share(more, scale));
}

#[verifier::rlimit(30)]
proof fn lemma_weight_falls(less: Binary64, more: Binary64)
    requires
        less.finite(),
        more.finite(),
        less.at_most(more),
        Binary64::of(ONE).minus(less).finite(),
        Binary64::of(ONE).minus(more).finite(),
        !Binary64::of(ONE).minus(less).negative(),
        !Binary64::of(ONE).minus(more).negative(),
    ensures
        Binary64::of(ONE).minus(more).times(Binary64::of(REWARD_WEIGHT)).at_most(
            Binary64::of(ONE).minus(less).times(Binary64::of(REWARD_WEIGHT)),
        ),
{
    let one = Binary64::of(ONE);
    law_subtraction_is_antitone(less, more, one);
    law_multiplication_is_monotone(one.minus(more), one.minus(less), Binary64::of(REWARD_WEIGHT));
}

/// The reward of two thrifts falls with either.
#[verifier::rlimit(30)]
proof fn lemma_blend_falls(a1: Binary64, b1: Binary64, a2: Binary64, b2: Binary64)
    requires
        a1.finite(),
        b1.finite(),
        a2.finite(),
        b2.finite(),
        Binary64::of(ZERO).at_most(a1),
        Binary64::of(ZERO).at_most(b1),
        Binary64::of(ZERO).at_most(a2),
        Binary64::of(ZERO).at_most(b2),
        a2.at_most(a1),
        b2.at_most(b1),
        a1.at_most(Binary64::of(REWARD_WEIGHT)),
        b1.at_most(Binary64::of(REWARD_WEIGHT)),
    ensures
        a2.plus(b2).plus(Binary64::of(REWARD_FOR_SUCCESS)).at_most(
            a1.plus(b1).plus(Binary64::of(REWARD_FOR_SUCCESS)),
        ),
{
    lemma_both_thrifts(a1, b1);
    lemma_both_thrifts(a2, b2);
    law_addition_is_monotone(a2, a1, b2);
    law_addition_is_monotone(b2, b1, a1);
    law_addition_commutes(b2, a1);
    law_addition_commutes(b1, a1);
    law_addition_is_monotone(a2.plus(b2), a1.plus(b1), Binary64::of(REWARD_FOR_SUCCESS));
}

/// A call that cost no less and took no less time earns no more.
pub proof fn law_rewards_fall_with_cost_and_latency(
    cost: Binary64,
    latency: Binary64,
    more_cost: Binary64,
    more_latency: Binary64,
)
    requires
        more_cost.finite(),
        more_latency.finite(),
        cost.finite(),
        latency.finite(),
        cost.value() >= 0,
        latency.value() >= 0,
        cost.at_most(more_cost),
        latency.at_most(more_latency),
    ensures
        reward_of(Some(more_cost), more_latency, true).at_most(reward_of(Some(cost), latency, true)),
{
    lemma_thrift(cost, REWARD_COST_SCALE_USD);
    lemma_thrift(latency, REWARD_LATENCY_BUDGET_MS);
    lemma_thrift(more_cost, REWARD_COST_SCALE_USD);
    lemma_thrift(more_latency, REWARD_LATENCY_BUDGET_MS);
    lemma_thrift_falls(cost, more_cost, REWARD_COST_SCALE_USD);
    lemma_thrift_falls(latency, more_latency, REWARD_LATENCY_BUDGET_MS);
    lemma_blend_falls(
        thrift(cost, REWARD_COST_SCALE_USD),
        thrift(latency, REWARD_LATENCY_BUDGET_MS),
        thrift(more_cost, REWARD_COST_SCALE_USD),
        thrift(more_latency, REWARD_LATENCY_BUDGET_MS),
    );
}

proof fn lemma_no_thrift_left(amount: Binary64, other: Binary64, scale: u64)
    requires
        amount.finite(),
        other.finite(),
        0 < scale < INFINITY_BITS,
        Binary64::of(scale).at_most(amount),
        Binary64::of(scale).at_most(other),
    ensures
        thrift(amount, scale) == thrift(other, scale),
{
    reveal(thrift);
    lemma_full_share(amount, scale);
    lemma_full_share(other, scale);
}

/// Beyond a tenth of a dollar the cost, and beyond twenty seconds the latency, changes nothing; an
/// unknown cost earns as much as none; and what a failed call cost or took changes nothing.
pub proof fn law_rewards_stay_put_beyond_the_scales(
    cost: Binary64,
    latency: Binary64,
    other: Binary64,
    success: bool,
)
    requires
        cost.finite(),
        latency.finite(),
        other.finite(),
    ensures
        Binary64::of(REWARD_COST_SCALE_USD).at_most(cost) && Binary64::of(
            REWARD_COST_SCALE_USD,
        ).at_most(other) ==> reward_of(Some(cost), latency, success) == reward_of(
            Some(other),
            latency,
            success,
        ),
        Binary64::of(REWARD_LATENCY_BUDGET_MS).at_most(latency) && Binary64::of(
            REWARD_LATENCY_BUDGET_MS,
        ).at_most(other) ==> reward_of(Some(cost), latency, success) == reward_of(
            Some(cost),
            other,
            success,
        ),
        reward_of(None, latency, success) == reward_of(Some(Binary64::of(ZERO)), latency, success),
        reward_of(Some(cost), latency, false) == Binary64::of(ZERO),
{
    if Binary64::of(REWARD_COST_SCALE_USD).at_most(cost) && Binary64::of(
        REWARD_COST_SCALE_USD,
    ).at_most(other) {
        lemma_no_thrift_left(cost, other, REWARD_COST_SCALE_USD);
    }
    if Binary64::of(REWARD_LATENCY_BUDGET_MS).at_most(latency) && Binary64::of(
        REWARD_LATENCY_BUDGET_MS,
    ).at_most(other) {
        lemma_no_thrift_left(latency, other, REWARD_LATENCY_BUDGET_MS);
    }
}

// ── What is counted ─────────────────────────────────────────────────────────

/// A record adds what it holds to a session's totals, and to those of its model, exactly if it
/// names the session and does not say that the call failed; whatever else it says plays no part.
pub proof fn law_each_served_record_counts_once(
    records: Seq<RoutingRecord>,
    record: RoutingRecord,
    session: Seq<char>,
    model: Seq<char>,
    measure: Measure,
)
    ensures
        ({
            let held = match measure {
                Measure::Calls => 1,
                Measure::Prompt => record.prompt_tokens as int,
                Measure::Cached => record.cached_tokens as int,
                Measure::CacheCreation => record.cache_creation_tokens as int,
                Measure::Completion => record.completion_tokens as int,
            };
            let named = record.session_id is Some && record.session_id->0@ == session;
            let failed = record.success is Some && !record.success->0;
            let label = if record.model@.len() > 0 {
                record.model@
            } else {
                "unknown"@
            };
            &&& grand_tally(records.push(record), session, measure) == grand_tally(
                records,
                session,
                measure,
            ) + if named && !failed {
                held
            } else {
                0
            }
            &&& tally(records.push(record), session, model, measure) == tally(
                records,
                session,
                model,
                measure,
            ) + if named && !failed && label == model {
                held
            } else {
                0
            }
            &&& served(records.push(record), session, model) == (served(records, session, model) || (
            named && !failed && label == model))
        }),
        grand_tally(Seq::empty(), session, measure) == 0,
        tally(Seq::empty(), session, model, measure) == 0,
        !served(Seq::empty(), session, model),
{
    let all = records.push(record);
    assert(all.drop_last() =~= records);
    assert(all.take(records.len() as int) =~= records);
    assert(all.take(all.len() as int) =~= all);
    lemma_served_step(all, session, model, records.len() as int);
}

/// Whether two records say the same of everything that is counted.
pub open spec fn counted_alike(a: RoutingRecord, b: RoutingRecord) -> bool {
    &&& text_option(a.session_id) == text_option(b.session_id)
    &&& a.success == b.success
    &&& a.model@ == b.model@
    &&& a.prompt_tokens == b.prompt_tokens
    &&& a.cached_tokens == b.cached_tokens
    &&& a.cache_creation_tokens == b.cache_creation_tokens
    &&& a.completion_tokens == b.completion_tokens
}

/// The totals depend on session, success, model and token counts alone: records that differ in
/// tier, task, cost or anything else give the same totals.
pub proof fn law_totals_ignore_everything_else(
    records: Seq<RoutingRecord>,
    others: Seq<RoutingRecord>,
    session: Seq<char>,
    model: Seq<char>,
    measure: Measure,
)
    requires
        records.len() == others.len(),
        forall|i: int|
            0 <= i < records.len() ==> counted_alike(#[trigger] records[i], #[trigger] others[i]),
    ensures
        grand_tally(records, session, measure) == grand_tally(others, session, measure),
        tally(records, session, model, measure) == tally(others, session, model, measure),
    decreases records.len(),
{
    if records.len() > 0 {
        let front = records.drop_last();
        let rest = others.drop_last();
        assert forall|i: int| 0 <= i < front.len() implies counted_alike(
            #[trigger] front[i],
            #[trigger] rest[i],
        ) by {
            assert(counted_alike(records[i], others[i]));
        }
        law_totals_ignore_everything_else(front, rest, session, model, measure);
        assert(counted_alike(records[records.len() - 1], others[others.len() - 1]));
    }
}

/// A record adds what it holds to each count of its model, up to the largest count.
pub proof fn law_stats_add_up_per_measure(
    stats: SessionModelStats,
    record: RoutingRecord,
    measure: Measure,
)
    ensures
        ({
            let held = match measure {
                Measure::Calls => 1,
                Measure::Prompt => record.prompt_tokens as int,
                Measure::Cached => record.cached_tokens as int,
                Measure::CacheCreation => record.cache_creation_tokens as int,
                Measure::Completion => record.completion_tokens as int,
            };
            stats.plus(record).measured(measure) == if stats.measured(measure) + held <= u64::MAX {
                stats.measured(measure) + held
            } else {
                u64::MAX as int
            }
        }),
        SessionModelStats::none().measured(measure) == 0,
{
}

/// Totals and stats are read off the field of their measure.
pub proof fn law_measures_name_their_fields(stats: SessionModelStats, totals: SessionStatsSnapshot)
    ensures
        stats.measured(Measure::Calls) == stats.calls,
        stats.measured(Measure::Prompt) == stats.prompt_tokens,
        stats.measured(Measure::Cached) == stats.cached_tokens,
        stats.measured(Measure::CacheCreation) == stats.cache_creation_tokens,
        stats.measured(Measure::Completion) == stats.completion_tokens,
        totals.total(Measure::Calls) == totals.total_calls,
        totals.total(Measure::Prompt) == totals.total_prompt_tokens,
        totals.total(Measure::Cached) == totals.total_cached_tokens,
        totals.total(Measure::CacheCreation) == totals.total_cache_creation_tokens,
        totals.total(Measure::Completion) == totals.total_completion_tokens,
{
}

/// Counts stop at the largest one.
pub proof fn law_counts_stop_at_the_largest(n: int)
    requires
        n >= 0,
    ensures
        n <= u64::MAX ==> capped(n) == n,
        n > u64::MAX ==> capped(n) == u64::MAX,
{
}

/// A record is one more outcome of the arm of its model and bucket, with its reward added, exactly
/// if it has a reward, a bucket and a model and is no classifier call.
pub proof fn law_each_rewarded_answer_counts_once(
    records: Seq<RoutingRecord>,
    record: RoutingRecord,
    arm: (Seq<char>, Seq<char>),
)
    ensures
        ({
            let outcome = {
                &&& record.reward is Some
                &&& record.token_bucket is Some
                &&& record.model@.len() > 0
                &&& record.tier@ != "classifier"@
                &&& record.model@ == arm.0
                &&& record.token_bucket->0@ == arm.1
            };
            &&& arm_count(records.push(record), arm) == arm_count(records, arm) + if outcome {
                1int
            } else {
                0
            }
            &&& arm_reward(records.push(record), arm) == if outcome {
                arm_reward(records, arm).plus(record.reward->0)
            } else {
                arm_reward(records, arm)
            }
        }),
        arm_count(Seq::empty(), arm) == 0,
        arm_reward(Seq::empty(), arm) == Binary64::of(ZERO),
{
    assert(records.push(record).drop_last() =~= records);
}

/// The summary has an arm exactly if some record is an outcome of it, with the number of its
/// outcomes and the sum of their rewards.
pub proof fn law_summaries_hold_counts_and_sums(
    arms: Map<(Seq<char>, Seq<char>), RewardSummary>,
    records: Seq<RoutingRecord>,
    arm: (Seq<char>, Seq<char>),
)
    requires
        summarizes(arms, records),
    ensures
        arms.contains_key(arm) <==> arm_count(records, arm) > 0,
        arms.contains_key(arm) && arm_count(records, arm) <= u64::MAX ==> arms[arm].count
            == arm_count(records, arm),
        arms.contains_key(arm) ==> arms[arm].sum_reward == arm_reward(records, arm),
{
    assert(arms.contains_key(arm) == (arm_count(records, arm) > 0));
}

/// The text under a key is the first one attached under it.
pub proof fn law_the_first_attached_text_counts(
    entries: Seq<(Seq<char>, Seq<char>)>,
    key: Seq<char>,
    at: int,
)
    requires
        0 <= at <= entries.len(),
        at < entries.len() ==> entries[at].0 == key,
        forall|i: int| 0 <= i < at ==> (#[trigger] entries[i]).0 != key,
    ensures
        first_entry(entries, key) == if at < entries.len() {
            Some(entries[at].1)
        } else {
            None
        },
    decreases at,
{
    if at > 0 {
        let rest = entries.skip(1);
        assert(entries[0].0 != key);
        assert forall|i: int| 0 <= i < at - 1 implies (#[trigger] rest[i]).0 != key by {
            assert(rest[i] == entries[i + 1]);
        }
        law_the_first_attached_text_counts(rest, key, at - 1);
    }
}

/// Without attached texts there is none under any key; with them the first one counts.
pub proof fn law_attached_texts_are_looked_up(facts: Facts, key: Seq<char>)
    ensures
        facts.extra is None ==> extra_text(facts, key) is None,
        facts.extra is Some ==> extra_text(facts, key) == first_entry(facts.extra->0, key),
{
}

/// A header counts with its first value, unless that is empty or not all visible.
pub proof fn law_headers_count_with_their_first_value(facts: Facts, name: Seq<char>)
    ensures
        facts.headers is None ==> header_fact(facts, name) is None,
        facts.headers is Some && !facts.headers->0.contains_key(name) ==> header_fact(
            facts,
            name,
        ) is None,
        facts.headers is Some && facts.headers->0.contains_key(name)
            && facts.headers->0[name].len() > 0 ==> {
            let bytes = facts.headers->0[name][0];
            let readable = bytes.len() > 0 && forall|i: int|
                0 <= i < bytes.len() ==> 32 <= #[trigger] bytes[i] < 127 || bytes[i] == 9;
            &&& header_fact(facts, name) is Some <==> readable
            &&& readable ==> header_fact(facts, name)->0.len() == bytes.len() && forall|i: int|
                0 <= i < bytes.len() ==> header_fact(facts, name)->0[i] == #[trigger] bytes[i] as char
        },
{
    if facts.headers is Some && facts.headers->0.contains_key(name)
        && facts.headers->0[name].len() > 0 {
        let bytes = facts.headers->0[name][0];
        assert((forall|i: int| 0 <= i < bytes.len() ==> crate::headers::visible(
            #[trigger] bytes[i],
        )) == (forall|i: int|
            0 <= i < bytes.len() ==> 32 <= #[trigger] bytes[i] < 127 || bytes[i] == 9)) by {
            assert(forall|i: int| crate::headers::visible(#[trigger] bytes[i]) == (32 <= bytes[i]
                < 127 || bytes[i] == 9));
        }
    }
}

/// The exact reward of a success: of each of cost and latency, the share of its scale that was not
/// used weighs three tenths, and four tenths come on top.
pub proof fn law_reward_weighs_what_was_not_used(cost: Binary64, latency: Binary64)
    ensures
        ({
            let one = Binary64::of(ONE);
            let weight = Binary64::of(REWARD_WEIGHT);
            let spent = cost.over(Binary64::of(REWARD_COST_SCALE_USD)).smaller(one);
            let waited = latency.over(Binary64::of(REWARD_LATENCY_BUDGET_MS)).smaller(one);
            reward_of(Some(cost), latency, true) == one.minus(spent).times(weight).plus(
                one.minus(waited).times(weight),
            ).plus(Binary64::of(REWARD_FOR_SUCCESS))
        }),
        reward_of(None, latency, true) == reward_of(Some(Binary64::of(ZERO)), latency, true),
        reward_of(Some(cost), latency, false) == Binary64::of(ZERO),
        reward_of(None, latency, false) == Binary64::of(ZERO),
{
    reveal(thrift);
}

/// A call that cost and took nothing earns exactly one; one at both scales earns the part for
/// success.
#[verifier::rlimit(30)]
pub proof fn law_rewards_at_both_ends()
    ensures
        reward_of(Some(Binary64::of(ZERO)), Binary64::of(ZERO), true).value() == pow2(1074),
        reward_of(
            Some(Binary64::of(REWARD_COST_SCALE_USD)),
            Binary64::of(REWARD_LATENCY_BUDGET_MS),
            true,
        ).value() == Binary64::of(REWARD_FOR_SUCCESS).value(),
{
    crate::thompson::lemma_one();
    assert(scaled(0) == 0);
    lemma_no_use(REWARD_COST_SCALE_USD);
    lemma_no_use(REWARD_LATENCY_BUDGET_MS);
    lemma_best_reward();
    lemma_full_use(Binary64::of(REWARD_COST_SCALE_USD), REWARD_COST_SCALE_USD);
    lemma_full_use(Binary64::of(REWARD_LATENCY_BUDGET_MS), REWARD_LATENCY_BUDGET_MS);
    let zero = Binary64::of(ZERO);
    let bonus = Binary64::of(REWARD_FOR_SUCCESS);
    law_zero_is_neutral(zero);
    law_addition_commutes(zero, bonus);
    law_zero_is_neutral(bonus);
}

/// Nothing used earns the whole weight.
#[verifier::rlimit(30)]
proof fn lemma_no_use(scale: u64)
    requires
        0 < scale < INFINITY_BITS,
    ensures
        thrift(Binary64::of(ZERO), scale) == Binary64::of(REWARD_WEIGHT),
{
    reveal(thrift);
    let zero = Binary64::of(ZERO);
    let one = Binary64::of(ONE);
    let weight = Binary64::of(REWARD_WEIGHT);
    let d = pow2(1074) as int;
    assert(scaled(0) == 0);
    lemma_pow2_pos(1074);
    crate::thompson::lemma_one();
    lemma_scaled_increases(0, scale as int);
    lemma_scaled_increases(0, one.magnitude());
    lemma_ratio_value(zero, scale);
    assert(scaled(zero.magnitude()) * pow2(1074) == 0) by (nonlinear_arith)
        requires
            scaled(zero.magnitude()) == 0,
    ;
    lemma_nearest_exact(0, scaled(scale as int));
    assert(scaled(scale as int) * scaled(0) == 0);
    assert(share(zero, scale) == zero);
    assert(zero.negation().magnitude() == 0 && zero.negation().value() == 0);
    lemma_nearest_exact(one.magnitude(), 1);
    assert(1 * scaled(one.magnitude()) == scaled(one.magnitude()));
    assert(one.minus(zero) == one);
    lemma_nearest_exact(weight.magnitude(), d);
    assert(scaled(one.magnitude()) * scaled(weight.magnitude()) == d * scaled(weight.magnitude()));
}

/// A scale used up earns nothing.
#[verifier::rlimit(30)]
proof fn lemma_full_use(amount: Binary64, scale: u64)
    requires
        amount == Binary64::of(scale),
        0 < scale < INFINITY_BITS,
    ensures
        thrift(amount, scale) == Binary64::of(ZERO),
{
    reveal(thrift);
    let zero = Binary64::of(ZERO);
    let one = Binary64::of(ONE);
    let weight = Binary64::of(REWARD_WEIGHT);
    let d = pow2(1074) as int;
    assert(scaled(0) == 0);
    lemma_pow2_pos(1074);
    lemma_scaled_increases(0, scale as int);
    lemma_full_share(amount, scale);
    assert(one.negation().value() == -one.value() && one.negation().finite());
    assert(one.minus(one) == zero);
    assert(scaled(zero.magnitude()) * scaled(weight.magnitude()) == 0) by (nonlinear_arith)
        requires
            scaled(zero.magnitude()) == 0,
    ;
    lemma_nearest_exact(0, d);
    assert(d * scaled(0) == 0);
}

/// The stats of a session hold exactly the models that served it, each with the sums of its own
/// records, up to the largest count.
pub proof fn law_stats_hold_the_sums_of_each_model(
    models: Map<Seq<char>, SessionModelStats>,
    records: Seq<RoutingRecord>,
    session: Seq<char>,
    model: Seq<char>,
    measure: Measure,
)
    requires
        holds_tallies(models, records, session),
    ensures
        models.contains_key(model) <==> served(records, session, model),
        models.contains_key(model) && tally(records, session, model, measure) <= u64::MAX
            ==> models[model].measured(measure) == tally(records, session, model, measure),
        models.contains_key(model) && tally(records, session, model, measure) > u64::MAX
            ==> models[model].measured(measure) == u64::MAX,
{
    lemma_tally_sign(records, session, model, measure);
    assert(models.contains_key(model) == served(records, session, model));
    if models.contains_key(model) {
        assert(models[model].measured(measure) == capped(
            tally(records, session, model, measure),
        ));
    }
}

/// The sum over listed models takes each entry once.
pub proof fn law_sums_take_each_model_once(
    listing: Seq<(Seq<char>, SessionModelStats)>,
    entry: (Seq<char>, SessionModelStats),
    measure: Measure,
)
    ensures
        listed_sum(Seq::empty(), measure) == 0,
        listed_sum(listing.push(entry), measure) == listed_sum(listing, measure)
            + entry.1.measured(measure),
{
    assert(listing.push(entry).drop_last() =~= listing);
}

/// A call that reported no usage used nothing.
pub proof fn law_unreported_usage_is_zero()
    ensures
        no_usage().prompt_tokens == 0,
        no_usage().cached_tokens == 0,
        no_usage().cache_creation_tokens == 0,
        no_usage().completion_tokens == 0,
        no_usage().reasoning_tokens == 0,
{
}

} // verus!
