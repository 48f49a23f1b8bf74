//! The consensus resolver: deciding on one external address from the poll
//! outcomes of many untrusted lookup sources.
//!
//! A pass runs in one of two modes. First-success takes the candidate of the
//! first source that yields one. Quorum-verified tallies the candidates of
//! every source and accepts only a unanimous answer or one whose top tally
//! reaches the two-thirds floor of all votes cast; otherwise it fails and
//! surfaces the competing tallies.

use vstd::prelude::*;

use crate::extract::{body_candidate, extract_candidate};
use crate::ip::Ipv4;

verus! {

/// What polling one lookup source came to: a transport failure, or a
/// response body to scan.
pub enum PollOutcome {
    Failed,
    Received { body: Vec<u8> },
}

impl PollOutcome {
    /// The candidate address this outcome contributes: none on transport
    /// failure, else whatever its body yields.
    pub open spec fn candidate(self) -> Option<Ipv4> {
        match self {
            PollOutcome::Failed => None,
            PollOutcome::Received { body } => body_candidate(body@),
        }
    }
}

/// The two operating modes of a resolution pass.
#[derive(Clone, Copy, Debug, PartialEq, Eq, Structural)]
pub enum ResolveMode {
    FirstSuccess,
    QuorumVerified,
}

/// One distinct candidate address and the number of sources that produced it.
#[derive(Clone, Copy, Debug, PartialEq, Eq, Structural)]
pub struct TallyEntry {
    pub ip: Ipv4,
    pub count: usize,
}

/// A definitive failure of a resolution pass.
#[derive(Debug)]
pub enum ResolutionError {
    /// No source produced any candidate.
    AllSourcesFailed,
    /// The candidates disagree and none reaches the super-majority; the
    /// competing tallies are carried for diagnostics.
    NoQuorum { tallies: Vec<TallyEntry> },
}

/// A configuration fault caught before any source is polled.
#[derive(Clone, Copy, Debug, PartialEq, Eq, Structural)]
pub enum ConfigError {
    /// A per-request timeout of zero seconds could never let a request
    /// finish, so it is rejected up front.
    ZeroTimeout,
}

/// Check the per-request timeout before any source is polled: zero is a
/// configuration error, any positive number of seconds passes unchanged.
pub fn validate_timeout(seconds: u16) -> (r: Result<u16, ConfigError>)
    ensures
        seconds == 0 ==> r == Err::<u16, ConfigError>(ConfigError::ZeroTimeout),
        seconds > 0 ==> r == Ok::<u16, ConfigError>(seconds),
{
    if seconds == 0 {
        Err(ConfigError::ZeroTimeout)
    } else {
        Ok(seconds)
    }
}

/// The candidate address of one poll outcome.
pub fn outcome_candidate(outcome: &PollOutcome) -> (r: Option<Ipv4>)
    ensures
        r == outcome.candidate(),
{
    match outcome {
        PollOutcome::Failed => None,
        PollOutcome::Received { body } => extract_candidate(body.as_slice()),
    }
}

/// The candidate of the first source that yields one, in list order.
pub open spec fn first_success(outs: Seq<PollOutcome>) -> Option<Ipv4>
    decreases outs.len(),
{
    if outs.len() == 0 {
        None
    } else {
        match outs[0].candidate() {
            Some(ip) => Some(ip),
            None => first_success(outs.drop_first()),
        }
    }
}

/// What a first-success pass owes: the first candidate when there is one,
/// and the all-sources failure otherwise.
pub open spec fn first_success_post(outs: Seq<PollOutcome>, r: Result<Ipv4, ResolutionError>) -> bool {
    match first_success(outs) {
        Some(ip) => r == Ok::<Ipv4, ResolutionError>(ip),
        None => r == Err::<Ipv4, ResolutionError>(ResolutionError::AllSourcesFailed),
    }
}

/// Resolve in first-success mode over the outcomes in poll order.
pub fn resolve_first_success(outcomes: &Vec<PollOutcome>) -> (r: Result<Ipv4, ResolutionError>)
    ensures
        first_success_post(outcomes@, r),
{
    let n = outcomes.len();
    proof {
        assert(outcomes@.skip(0) =~= outcomes@);
    }
    let mut i: usize = 0;
    while i < n
        invariant
            i <= n,
            n == outcomes@.len(),
            first_success(outcomes@) == first_success(outcomes@.skip(i as int)),
        decreases n - i,
    {
        proof {
            assert(outcomes@.skip(i as int)[0] == outcomes@[i as int]);
            assert(outcomes@.skip(i as int).drop_first() =~= outcomes@.skip(i as int + 1));
        }
        if let Some(ip) = outcome_candidate(&outcomes[i]) {
            return Ok(ip);
        }
        i = i + 1;
    }
    proof {
        assert(outcomes@.skip(n as int) =~= Seq::<PollOutcome>::empty());
    }
    Err(ResolutionError::AllSourcesFailed)
}

/// The candidates that a full poll of all sources yields, in source order;
/// sources that failed or produced no valid dotted quad contribute nothing.
pub open spec fn candidates_of(outs: Seq<PollOutcome>) -> Seq<Ipv4>
    decreases outs.len(),
{
    if outs.len() == 0 {
        Seq::empty()
    } else {
        let pre = candidates_of(outs.drop_last());
        match outs.last().candidate() {
            Some(ip) => pre.push(ip),
            None => pre,
        }
    }
}

/// Collect the candidates of every outcome, in order.
pub fn collect_candidates(outcomes: &Vec<PollOutcome>) -> (c: Vec<Ipv4>)
    ensures
        c@ == candidates_of(outcomes@),
{
    let mut c: Vec<Ipv4> = Vec::new();
    let mut i: usize = 0;
    while i < outcomes.len()
        invariant
            i <= outcomes@.len(),
            c@ == candidates_of(outcomes@.take(i as int)),
        decreases outcomes@.len() - i,
    {
        proof {
            assert(outcomes@.take(i as int + 1).drop_last() =~= outcomes@.take(i as int));
            assert(outcomes@.take(i as int + 1).last() == outcomes@[i as int]);
        }
        if let Some(ip) = outcome_candidate(&outcomes[i]) {
            c.push(ip);
        }
        i = i + 1;
    }
    proof {
        assert(outcomes@.take(outcomes@.len() as int) =~= outcomes@);
    }
    c
}

/// The position of `ip` in a tally, if it has voted before.
pub open spec fn find_ip(t: Seq<(Ipv4, nat)>, ip: Ipv4) -> Option<int>
    decreases t.len(),
{
    if t.len() == 0 {
        None
    } else if t[0].0 == ip {
        Some(0)
    } else {
        match find_ip(t.drop_first(), ip) {
            Some(j) => Some(j + 1),
            None => None,
        }
    }
}

/// `find_ip` names the first entry that carries `ip`, and fails only when no
/// entry does.
pub proof fn lemma_find_ip(t: Seq<(Ipv4, nat)>, ip: Ipv4)
    ensures
        match find_ip(t, ip) {
            Some(j) => 0 <= j < t.len() && t[j].0 == ip && (forall|k: int|
                0 <= k < j ==> (#[trigger] t[k]).0 != ip),
            None => forall|k: int| 0 <= k < t.len() ==> (#[trigger] t[k]).0 != ip,
        },
    decreases t.len(),
{
    if t.len() > 0 && t[0].0 != ip {
        let rest = t.drop_first();
        lemma_find_ip(rest, ip);
        match find_ip(rest, ip) {
            Some(j) => {
                assert(t[j + 1] == rest[j]);
                assert forall|k: int| 0 <= k < j + 1 implies (#[trigger] t[k]).0 != ip by {
                    if k > 0 {
                        assert(rest[k - 1] == t[k]);
                    }
                }
            },
            None => {
                assert forall|k: int| 0 <= k < t.len() implies (#[trigger] t[k]).0 != ip by {
                    if k > 0 {
                        assert(rest[k - 1] == t[k]);
                    }
                }
            },
        }
    }
}

/// Cast one vote for `ip`: raise its count when it is already tallied, else
/// append it with a count of one.
pub open spec fn cast_vote(t: Seq<(Ipv4, nat)>, ip: Ipv4) -> Seq<(Ipv4, nat)> {
    match find_ip(t, ip) {
        Some(j) => t.update(j, (ip, (t[j].1 + 1) as nat)),
        None => t.push((ip, 1nat)),
    }
}

/// The tally of a candidate list: each distinct address in first-seen order,
/// with the number of votes it drew.
pub open spec fn tally_of(cands: Seq<Ipv4>) -> Seq<(Ipv4, nat)>
    decreases cands.len(),
{
    if cands.len() == 0 {
        Seq::empty()
    } else {
        cast_vote(tally_of(cands.drop_last()), cands.last())
    }
}

/// The mathematical reading of an executable tally.
pub open spec fn entries_view(t: Seq<TallyEntry>) -> Seq<(Ipv4, nat)> {
    t.map_values(|e: TallyEntry| (e.ip, e.count as nat))
}

/// A tally is never longer than its candidate list, is nonempty as soon as
/// one candidate voted, and no count exceeds the number of candidates.
pub proof fn lemma_tally_counts(cands: Seq<Ipv4>)
    ensures
        tally_of(cands).len() <= cands.len(),
        cands.len() > 0 ==> 1 <= tally_of(cands).len(),
        forall|j: int|
            0 <= j < tally_of(cands).len() ==> (#[trigger] tally_of(cands)[j]).1 <= cands.len(),
    decreases cands.len(),
{
    if cands.len() > 0 {
        let pre = tally_of(cands.drop_last());
        let ip = cands.last();
        lemma_tally_counts(cands.drop_last());
        lemma_find_ip(pre, ip);
    }
}

/// The votes of a tally, added up.
pub open spec fn count_sum(t: Seq<(Ipv4, nat)>) -> int
    decreases t.len(),
{
    if t.len() == 0 {
        0
    } else {
        count_sum(t.drop_last()) + t.last().1
    }
}

/// Rewriting one entry moves the sum by the difference of the counts.
proof fn lemma_count_sum_update(t: Seq<(Ipv4, nat)>, j: int, e: (Ipv4, nat))
    requires
        0 <= j < t.len(),
    ensures
        count_sum(t.update(j, e)) == count_sum(t) - t[j].1 + e.1,
    decreases t.len(),
{
    if j == t.len() - 1 {
        assert(t.update(j, e).drop_last() =~= t.drop_last());
        assert(t.update(j, e).last() == e);
    } else {
        assert(t.update(j, e).drop_last() =~= t.drop_last().update(j, e));
        lemma_count_sum_update(t.drop_last(), j, e);
    }
}

/// Total-votes law: the votes in the tally of a candidate list add up to
/// exactly one per candidate, so the tally's total and the number of
/// respondents are the same quantity.
pub proof fn lemma_tally_total(cands: Seq<Ipv4>)
    ensures
        count_sum(tally_of(cands)) == cands.len(),
    decreases cands.len(),
{
    if cands.len() > 0 {
        let pre = tally_of(cands.drop_last());
        let ip = cands.last();
        lemma_tally_total(cands.drop_last());
        lemma_find_ip(pre, ip);
        match find_ip(pre, ip) {
            Some(j) => {
                lemma_count_sum_update(pre, j, (ip, (pre[j].1 + 1) as nat));
            },
            None => {
                assert(pre.push((ip, 1nat)).drop_last() =~= pre);
            },
        }
    }
}

/// The entry a pass settles on when counts differ: the first entry holding
/// the highest count.
pub open spec fn top_index(t: Seq<(Ipv4, nat)>) -> int
    decreases t.len(),
{
    if t.len() <= 1 {
        0
    } else {
        let j = top_index(t.drop_last());
        if t.last().1 > t[j].1 {
            t.len() - 1
        } else {
            j
        }
    }
}

/// `top_index` names the first entry whose count no other entry exceeds.
pub proof fn lemma_top_index(t: Seq<(Ipv4, nat)>)
    requires
        t.len() > 0,
    ensures
        0 <= top_index(t) < t.len(),
        forall|k: int| 0 <= k < t.len() ==> (#[trigger] t[k]).1 <= t[top_index(t)].1,
        forall|k: int| 0 <= k < top_index(t) ==> (#[trigger] t[k]).1 < t[top_index(t)].1,
    decreases t.len(),
{
    if t.len() > 1 {
        let s = t.drop_last();
        lemma_top_index(s);
        let j = top_index(s);
        assert(s[j] == t[j]);
        assert forall|k: int| 0 <= k < t.len() implies (#[trigger] t[k]).1 <= t[top_index(t)].1 by {
            if k < t.len() - 1 {
                assert(s[k] == t[k]);
            }
        }
        assert forall|k: int| 0 <= k < top_index(t) implies (#[trigger] t[k]).1 < t[
            top_index(t)
        ].1 by {
            if k < t.len() - 1 {
                assert(s[k] == t[k]);
            }
        }
    }
}

/// The integer-floor two-thirds threshold on the number of votes cast.
pub open spec fn quorum_threshold(total: int) -> int {
    total * 2 / 3
}

/// Whether a quorum pass settles on an address: a single distinct candidate
/// is unanimous; among several, the top tally must reach the threshold.
pub open spec fn quorum_accepts(cands: Seq<Ipv4>) -> bool {
    let t = tally_of(cands);
    t.len() == 1 || (t.len() > 1 && t[top_index(t)].1 >= quorum_threshold(cands.len() as int))
}

/// The address an accepting quorum pass settles on: the first-seen candidate
/// among those with the highest tally.
pub open spec fn quorum_choice(cands: Seq<Ipv4>) -> Ipv4 {
    let t = tally_of(cands);
    t[top_index(t)].0
}

/// What a quorum pass owes: the all-sources failure when nobody voted, the
/// accepted address when the tally settles, and otherwise a no-quorum
/// failure that carries the full tally.
pub open spec fn quorum_post(outs: Seq<PollOutcome>, r: Result<Ipv4, ResolutionError>) -> bool {
    let c = candidates_of(outs);
    &&& c.len() == 0 ==> r == Err::<Ipv4, ResolutionError>(ResolutionError::AllSourcesFailed)
    &&& c.len() > 0 && quorum_accepts(c) ==> r == Ok::<Ipv4, ResolutionError>(quorum_choice(c))
    &&& c.len() > 0 && !quorum_accepts(c) ==> (match r {
        Result::Err(ResolutionError::NoQuorum { tallies }) => entries_view(tallies@) == tally_of(
            c,
        ),
        _ => false,
    })
}

/// The position of `ip` in the executable tally, if it has voted before.
fn find_entry(tally: &Vec<TallyEntry>, ip: Ipv4) -> (r: Option<usize>)
    ensures
        r is None <==> find_ip(entries_view(tally@), ip) is None,
        r matches Some(j) ==> find_ip(entries_view(tally@), ip) == Some(j as int),
{
    let ghost ev = entries_view(tally@);
    proof {
        lemma_find_ip(ev, ip);
    }
    let mut j: usize = 0;
    while j < tally.len()
        invariant
            j <= tally@.len(),
            ev == entries_view(tally@),
            forall|k: int| 0 <= k < j ==> (#[trigger] ev[k]).0 != ip,
        decreases tally@.len() - j,
    {
        if tally[j].ip == ip {
            proof {
                assert(ev[j as int].0 == ip);
                lemma_find_ip(ev, ip);
            }
            return Some(j);
        }
        proof {
            assert(ev[j as int].0 == tally@[j as int].ip);
        }
        j = j + 1;
    }
    proof {
        lemma_find_ip(ev, ip);
        if find_ip(ev, ip) is Some {
            let j0 = find_ip(ev, ip)->Some_0;
            assert(ev[j0].0 == ip);
        }
    }
    None
}

/// Tally the candidates of one pass: distinct addresses in first-seen order,
/// each with the votes it drew.
pub fn tally_votes(candidates: &Vec<Ipv4>) -> (tally: Vec<TallyEntry>)
    ensures
        entries_view(tally@) == tally_of(candidates@),
{
    let n = candidates.len();
    let mut tally: Vec<TallyEntry> = Vec::new();
    let mut i: usize = 0;
    while i < n
        invariant
            i <= n,
            n == candidates@.len(),
            entries_view(tally@) == tally_of(candidates@.take(i as int)),
        decreases n - i,
    {
        let ip = candidates[i];
        let ghost pre = entries_view(tally@);
        proof {
            assert(candidates@.take(i as int + 1).drop_last() =~= candidates@.take(i as int));
            assert(candidates@.take(i as int + 1).last() == candidates@[i as int]);
            lemma_tally_counts(candidates@.take(i as int));
            assert(candidates@.take(i as int).len() == i as int);
        }
        match find_entry(&tally, ip) {
            Some(j) => {
                proof {
                    lemma_find_ip(pre, ip);
                }
                let cnt = tally[j].count;
                assert(cnt == pre[j as int].1);
                tally[j] = TallyEntry { ip, count: cnt + 1 };
                proof {
                    assert(entries_view(tally@) =~= cast_vote(pre, ip));
                }
            },
            None => {
                tally.push(TallyEntry { ip, count: 1 });
                proof {
                    assert(entries_view(tally@) =~= cast_vote(pre, ip));
                }
            },
        }
        i = i + 1;
    }
    proof {
        assert(candidates@.take(n as int) =~= candidates@);
    }
    tally
}

/// The first entry of the executable tally whose count no other exceeds.
fn top_entry_index(tally: &Vec<TallyEntry>) -> (top: usize)
    requires
        tally@.len() > 0,
    ensures
        top as int == top_index(entries_view(tally@)),
        top < tally@.len(),
{
    let ghost ev = entries_view(tally@);
    let n = tally.len();
    let mut top: usize = 0;
    let mut i: usize = 1;
    while i < n
        invariant
            1 <= i <= n,
            n == tally@.len(),
            top < i,
            ev == entries_view(tally@),
            top as int == top_index(ev.take(i as int)),
        decreases n - i,
    {
        proof {
            assert(ev.take(i as int + 1).drop_last() =~= ev.take(i as int));
            assert(ev.take(i as int + 1).last() == ev[i as int]);
            assert(ev[i as int].1 == tally@[i as int].count as nat);
            assert(ev.take(i as int)[top as int] == ev[top as int]);
        }
        if tally[i].count > tally[top].count {
            top = i;
        }
        i = i + 1;
    }
    proof {
        assert(ev.take(n as int) =~= ev);
    }
    top
}

/// Resolve in quorum-verified mode over the outcomes of a full poll.
pub fn resolve_quorum(outcomes: &Vec<PollOutcome>) -> (r: Result<Ipv4, ResolutionError>)
    ensures
        quorum_post(outcomes@, r),
{
    let candidates = collect_candidates(outcomes);
    let tally = tally_votes(&candidates);
    proof {
        lemma_tally_counts(candidates@);
    }
    if tally.len() == 0 {
        return Err(ResolutionError::AllSourcesFailed);
    }
    if tally.len() == 1 {
        return Ok(tally[0].ip);
    }
    let top = top_entry_index(&tally);
    proof {
        lemma_top_index(entries_view(tally@));
    }
    let total = candidates.len();
    let cnt = tally[top].count;
    if (cnt as u128) >= (total as u128) * 2 / 3 {
        Ok(tally[top].ip)
    } else {
        Err(ResolutionError::NoQuorum { tallies: tally })
    }
}

/// Resolve one pass in the given mode.
pub fn resolve(mode: ResolveMode, outcomes: &Vec<PollOutcome>) -> (r: Result<Ipv4, ResolutionError>)
    ensures
        mode == ResolveMode::FirstSuccess ==> first_success_post(outcomes@, r),
        mode == ResolveMode::QuorumVerified ==> quorum_post(outcomes@, r),
{
    match mode {
        ResolveMode::FirstSuccess => resolve_first_success(outcomes),
        ResolveMode::QuorumVerified => resolve_quorum(outcomes),
    }
}

/// First-success law: when every source before `i` fails and source `i`
/// yields a candidate, a first-success pass returns exactly that candidate.
pub proof fn lemma_first_success_returns_first(outs: Seq<PollOutcome>, i: int)
    requires
        0 <= i < outs.len(),
        outs[i].candidate() is Some,
        forall|j: int| 0 <= j < i ==> (#[trigger] outs[j]).candidate() is None,
    ensures
        first_success(outs) == outs[i].candidate(),
    decreases i,
{
    if i > 0 {
        assert(outs.drop_first()[i - 1] == outs[i]);
        assert forall|j: int| 0 <= j < i - 1 implies (#[trigger] outs.drop_first()[j]).candidate()
            is None by {
            assert(outs.drop_first()[j] == outs[j + 1]);
        }
        lemma_first_success_returns_first(outs.drop_first(), i - 1);
    }
}

/// First-success law, continued: sources after the first success cannot
/// influence the result, so a pass may stop polling at that point.
pub proof fn lemma_first_success_ignores_later_sources(
    a: Seq<PollOutcome>,
    b: Seq<PollOutcome>,
    i: int,
)
    requires
        0 <= i < a.len(),
        0 <= i < b.len(),
        forall|j: int| 0 <= j <= i ==> a[j] == b[j],
        a[i].candidate() is Some,
        forall|j: int| 0 <= j < i ==> (#[trigger] a[j]).candidate() is None,
    ensures
        first_success(a) == first_success(b),
{
    lemma_first_success_returns_first(a, i);
    assert forall|j: int| 0 <= j < i implies (#[trigger] b[j]).candidate() is None by {
        assert(b[j] == a[j]);
    }
    assert(b[i] == a[i]);
    lemma_first_success_returns_first(b, i);
}

/// All-failed law: when no source yields a candidate, a first-success pass
/// finds nothing and a quorum pass has an empty candidate list, so both
/// modes report that all sources failed.
pub proof fn lemma_all_sources_failed(outs: Seq<PollOutcome>)
    requires
        forall|j: int| 0 <= j < outs.len() ==> (#[trigger] outs[j]).candidate() is None,
    ensures
        first_success(outs) is None,
        candidates_of(outs).len() == 0,
    decreases outs.len(),
{
    if outs.len() > 0 {
        assert forall|j: int|
            0 <= j < outs.drop_first().len() implies (#[trigger] outs.drop_first()[j]).candidate()
            is None by {
            assert(outs.drop_first()[j] == outs[j + 1]);
        }
        assert forall|j: int|
            0 <= j < outs.drop_last().len() implies (#[trigger] outs.drop_last()[j]).candidate()
            is None by {
            assert(outs.drop_last()[j] == outs[j]);
        }
        lemma_all_sources_failed(outs.drop_first());
        lemma_all_sources_failed(outs.drop_last());
    }
}

} // verus!
