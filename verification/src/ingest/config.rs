//! Ingest configuration: which curation state a claim arriving on a source
//! scheme is placed in, and how a retention period becomes a deadline.
use vstd::prelude::*;
use std::time::SystemTime;
use crate::text::{decimal, push_decimal, str_eq};
use crate::time::{offset_of_time, offset_secs, plus_secs, system_now};

verus! {

/// The curation state a claim is placed in.
#[derive(Debug, Clone, Copy, PartialEq, Eq, Structural)]
pub enum ReviewState {
    /// Served as soon as it lands.
    Active,
    /// Held back until a curator accepts it.
    Pending,
}

impl Default for ReviewState {
    fn default() -> (r: Self)
        ensures
            r == ReviewState::Active,
    {
        ReviewState::Active
    }
}

/// Source scheme → the curation state a claim arriving on it is placed in.
/// An absent scheme is `Active`, so an empty policy holds nothing back.
pub struct ReviewPolicy {
    rows: Vec<(String, ReviewState)>,
}

/// The schemes of a run of policy rows, in order.
pub open spec fn schemes_of(rows: Seq<(String, ReviewState)>) -> Seq<Seq<char>> {
    rows.map_values(|r: (String, ReviewState)| r.0@)
}

/// A run of policy rows read as a map from scheme to state.
pub open spec fn policy_of(rows: Seq<(String, ReviewState)>) -> Map<Seq<char>, ReviewState> {
    Map::new(
        |k: Seq<char>| schemes_of(rows).contains(k),
        |k: Seq<char>| rows[schemes_of(rows).index_of(k)].1,
    )
}

proof fn lemma_index_of(rows: Seq<(String, ReviewState)>, i: int)
    requires
        schemes_of(rows).no_duplicates(),
        0 <= i < rows.len(),
    ensures
        schemes_of(rows).index_of(schemes_of(rows)[i]) == i,
{
    let k = schemes_of(rows)[i];
    assert(schemes_of(rows).contains(k));
    let j = schemes_of(rows).index_of(k);
    assert(0 <= j < schemes_of(rows).len() && schemes_of(rows)[j] == k);
}

proof fn lemma_push_row(rows: Seq<(String, ReviewState)>, r: (String, ReviewState))
    requires
        schemes_of(rows).no_duplicates(),
        !schemes_of(rows).contains(r.0@),
    ensures
        schemes_of(rows.push(r)).no_duplicates(),
        policy_of(rows.push(r)) == policy_of(rows).insert(r.0@, r.1),
{
    let nr = rows.push(r);
    let want = policy_of(rows).insert(r.0@, r.1);
    assert(schemes_of(nr) =~= schemes_of(rows).push(r.0@));
    lemma_index_of(nr, rows.len() as int);
    assert forall|k: Seq<char>| #[trigger] policy_of(nr).contains_key(k) <==> want.contains_key(k) by {
        if k == r.0@ {
            assert(schemes_of(nr)[rows.len() as int] == k);
        } else if schemes_of(rows).contains(k) {
            let j = schemes_of(rows).index_of(k);
            assert(schemes_of(nr)[j] == k);
        }
    }
    assert forall|k: Seq<char>| #[trigger] policy_of(nr).contains_key(k) implies policy_of(nr)[k]
        == want[k] by {
        if k != r.0@ {
            let j = schemes_of(nr).index_of(k);
            assert(0 <= j < schemes_of(nr).len() && schemes_of(nr)[j] == k);
            assert(schemes_of(rows)[j] == k);
            lemma_index_of(rows, j);
        }
    }
    assert(policy_of(nr) =~= want);
}

proof fn lemma_set_row(rows: Seq<(String, ReviewState)>, i: int, r: (String, ReviewState))
    requires
        schemes_of(rows).no_duplicates(),
        0 <= i < rows.len(),
        rows[i].0@ == r.0@,
    ensures
        schemes_of(rows.update(i, r)).no_duplicates(),
        policy_of(rows.update(i, r)) == policy_of(rows).insert(r.0@, r.1),
{
    let nr = rows.update(i, r);
    let want = policy_of(rows).insert(r.0@, r.1);
    assert(schemes_of(nr) =~= schemes_of(rows));
    lemma_index_of(rows, i);
    assert forall|k: Seq<char>| #[trigger] policy_of(nr).contains_key(k) <==> want.contains_key(k) by {
        if k == r.0@ {
            assert(schemes_of(rows)[i] == k);
        }
    }
    assert forall|k: Seq<char>| #[trigger] policy_of(nr).contains_key(k) implies policy_of(nr)[k]
        == want[k] by {
        let j = schemes_of(nr).index_of(k);
        assert(0 <= j < schemes_of(nr).len() && schemes_of(nr)[j] == k);
        if k != r.0@ {
            assert(j != i);
        }
    }
    assert(policy_of(nr) =~= want);
}

fn find_row(rows: &Vec<(String, ReviewState)>, scheme: &str) -> (r: Option<usize>)
    ensures
        r matches Some(i) ==> i < rows@.len() && schemes_of(rows@)[i as int] == scheme@,
        r is None ==> !schemes_of(rows@).contains(scheme@),
{
    let n = rows.len();
    let mut i: usize = 0;
    while i < n
        invariant
            n == rows@.len(),
            i <= n,
            forall|j: int| 0 <= j < i ==> schemes_of(rows@)[j] != scheme@,
        decreases n - i,
    {
        if str_eq(rows[i].0.as_str(), scheme) {
            return Some(i);
        }
        i = i + 1;
    }
    None
}

impl ReviewPolicy {
    #[verifier::type_invariant]
    spec fn schemes_distinct(self) -> bool {
        schemes_of(self.rows@).no_duplicates()
    }

    /// The policy as a map from scheme to state.
    pub closed spec fn states(self) -> Map<Seq<char>, ReviewState> {
        policy_of(self.rows@)
    }

    /// A policy naming no scheme.
    pub fn new() -> (r: Self)
        ensures
            r.states() == Map::<Seq<char>, ReviewState>::empty(),
    {
        let rows: Vec<(String, ReviewState)> = Vec::new();
        assert(policy_of(rows@) =~= Map::<Seq<char>, ReviewState>::empty());
        ReviewPolicy { rows }
    }

    /// A policy built from `pairs` in order; a scheme named twice keeps its
    /// later state.
    pub fn from_pairs(pairs: Vec<(String, ReviewState)>) -> (r: Self)
        ensures
            r.states() == pairs_policy(pairs@),
    {
        let mut p = ReviewPolicy::new();
        let n = pairs.len();
        let mut i: usize = 0;
        while i < n
            invariant
                n == pairs@.len(),
                i <= n,
                p.states() == pairs_policy(pairs@.take(i as int)),
            decreases n - i,
        {
            assert(pairs@.take(i + 1).drop_last() =~= pairs@.take(i as int));
            let (k, v) = (pairs[i].0.clone(), pairs[i].1);
            p.insert(k, v);
            i = i + 1;
        }
        assert(pairs@.take(n as int) =~= pairs@);
        p
    }

    /// Places claims arriving on `scheme` in `state`, replacing what the
    /// policy said of it before.
    pub fn insert(&mut self, scheme: String, state: ReviewState)
        ensures
            final(self).states() == old(self).states().insert(scheme@, state),
    {
        proof {
            use_type_invariant(&*self);
        }
        let mut rows: Vec<(String, ReviewState)> = Vec::new();
        std::mem::swap(&mut rows, &mut self.rows);
        match find_row(&rows, scheme.as_str()) {
            Some(i) => {
                proof {
                    lemma_set_row(rows@, i as int, (scheme, state));
                }
                rows.set(i, (scheme, state));
            },
            None => {
                proof {
                    lemma_push_row(rows@, (scheme, state));
                }
                rows.push((scheme, state));
            },
        }
        self.rows = rows;
    }

    /// The state the policy names for `scheme`, if it names one.
    pub fn get(&self, scheme: &str) -> (r: Option<ReviewState>)
        ensures
            r == (if self.states().contains_key(scheme@) {
                Some(self.states()[scheme@])
            } else {
                None
            }),
    {
        proof {
            use_type_invariant(self);
        }
        match find_row(&self.rows, scheme) {
            Some(i) => {
                proof {
                    lemma_index_of(self.rows@, i as int);
                }
                Some(self.rows[i].1)
            },
            None => None,
        }
    }

    /// Whether the policy names no scheme.
    pub fn is_empty(&self) -> (r: bool)
        ensures
            r == (self.states().dom() == Set::<Seq<char>>::empty()),
    {
        proof {
            if self.rows@.len() > 0 {
                assert(schemes_of(self.rows@)[0] == self.rows@[0].0@);
                assert(self.states().dom().contains(self.rows@[0].0@));
            } else {
                assert(self.states().dom() =~= Set::<Seq<char>>::empty());
            }
        }
        self.rows.len() == 0
    }
}

/// The policy `pairs` describe, later pairs overriding earlier ones.
pub open spec fn pairs_policy(pairs: Seq<(String, ReviewState)>) -> Map<Seq<char>, ReviewState>
    decreases pairs.len(),
{
    if pairs.len() == 0 {
        Map::empty()
    } else {
        pairs_policy(pairs.drop_last()).insert(pairs.last().0@, pairs.last().1)
    }
}

/// The state a claim arriving on a source of `scheme` is placed in: what
/// the policy names for the scheme, else `Active`.
pub open spec fn review_state_for(policy: Map<Seq<char>, ReviewState>, scheme: Seq<char>) -> ReviewState {
    if policy.contains_key(scheme) {
        policy[scheme]
    } else {
        ReviewState::Active
    }
}

/// The policy holds back only what it names: an empty policy places every
/// claim `Active`, and a scheme it does not name is `Active` too; a scheme
/// it names gets the state the latest pair for it gave.
pub proof fn lemma_policy_names_what_it_holds(
    pairs: Seq<(String, ReviewState)>,
    scheme: Seq<char>,
)
    ensures
        review_state_for(Map::empty(), scheme) == ReviewState::Active,
        pairs.len() > 0 && pairs.last().0@ == scheme ==> review_state_for(pairs_policy(pairs), scheme)
            == pairs.last().1,
        (forall|i: int| 0 <= i < pairs.len() ==> #[trigger] pairs[i].0@ != scheme)
            ==> review_state_for(pairs_policy(pairs), scheme) == ReviewState::Active,
    decreases pairs.len(),
{
    if pairs.len() > 0 {
        lemma_policy_names_what_it_holds(pairs.drop_last(), scheme);
        if forall|i: int| 0 <= i < pairs.len() ==> #[trigger] pairs[i].0@ != scheme {
            assert forall|i: int| 0 <= i < pairs.drop_last().len() implies #[trigger] pairs.drop_last()[i].0@ != scheme by {
                assert(pairs.drop_last()[i] == pairs[i]);
            }
            assert(pairs.last() == pairs[pairs.len() - 1]);
        }
    }
}

/// The one resolution of a source's curation state, keyed on its scheme.
pub fn review_for(policy: &ReviewPolicy, scheme: &str) -> (r: ReviewState)
    ensures
        r == review_state_for(policy.states(), scheme@),
{
    match policy.get(scheme) {
        Some(s) => s,
        None => ReviewState::Active,
    }
}

/// The refusal for a retention the clock cannot hold.
pub open spec fn retention_overflow_message(retention_secs: u64) -> Seq<char> {
    "retention_secs "@ + decimal(retention_secs as nat) + " overflows the clock"@
}

/// What a retention of `retention_secs` becomes once the clock has been
/// read and the period added (`deadline`: the sum, `None` when the clock
/// cannot represent it): zero is no deadline; otherwise the deadline, or the
/// refusal when there is none.
pub fn deadline_from(retention_secs: u64, deadline: Option<SystemTime>) -> (r: Result<
    Option<SystemTime>,
    String,
>)
    ensures
        retention_secs == 0 ==> r == Ok::<Option<SystemTime>, String>(None),
        retention_secs != 0 && deadline is Some ==> r == Ok::<Option<SystemTime>, String>(deadline),
        retention_secs != 0 && deadline is None ==> (r matches Err(e) && e@
            == retention_overflow_message(retention_secs)),
{
    if retention_secs == 0 {
        return Ok(None);
    }
    match deadline {
        Some(t) => Ok(Some(t)),
        None => {
            let mut e = String::from_str("retention_secs ");
            push_decimal(&mut e, retention_secs);
            e.append(" overflows the clock");
            proof {
                reveal_strlit("retention_secs ");
                reveal_strlit(" overflows the clock");
            }
            assert(e@ =~= retention_overflow_message(retention_secs));
            Err(e)
        },
    }
}

/// A retention period as an absolute deadline measured from now; 0 means no
/// deadline. The deadline lies the period after the clock's reading; when
/// the platform cannot represent it, the refusal names the period.
pub fn valid_until_from_retention(retention_secs: u64) -> (r: Result<Option<SystemTime>, String>)
    ensures
        retention_secs == 0 <==> r == Ok::<Option<SystemTime>, String>(None),
        r is Err ==> (r matches Err(e) && e@ == retention_overflow_message(retention_secs)),
        r matches Ok(Some(t)) ==> exists|now: SystemTime|
            offset_secs(offset_of_time(t)) == #[trigger] offset_secs(offset_of_time(now)) + retention_secs,
{
    if retention_secs == 0 {
        return Ok(None);
    }
    let now = system_now();
    let sum = plus_secs(now, retention_secs);
    deadline_from(retention_secs, sum)
}

} // verus!
