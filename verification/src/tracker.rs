//! Orchestration of one polling pass over the paginated issue tracker.
//!
//! Pages are requested at a growing offset, at most a fixed number of them
//! per pass. Every issue on a fetched page is counted toward the next
//! offset; each issue whose identifier is not yet in the ledger is marked
//! seen at once — before its publish attempt resolves, a deliberate policy
//! that prefers an occasional dropped announcement to a duplicated one —
//! and its notification text is handed back for concurrent publishing. A
//! page shorter than the requested size signals the end of the results.

use vstd::prelude::*;

use crate::ledger::Config;
use crate::num::int_dec;

verus! {

/// Number of issues requested per page.
pub const ISSUE_QUERY_COUNT: u64 = 50;

/// Cap on the number of page fetches in one pass, a guard against runaway
/// pagination.
pub const MAX_PAGE_FETCHES: u64 = 10;

/// One issue as the tracker reports it, already normalized from the wire
/// shape: a stable numeric identifier and a human-readable summary.
pub struct Issue {
    pub id: i64,
    pub summary: String,
}

/// The notification text for one issue: its summary, a space, and the
/// issue's canonical page address.
pub open spec fn issue_text(summary: Seq<char>, id: int) -> Seq<char> {
    summary + " "@ + "https://project-zero.issues.chromium.org/issues/"@ + int_dec(id)
}

/// The set of issue identifiers appearing on a page.
pub open spec fn page_ids(page: Seq<Issue>) -> Set<int> {
    Set::new(|x: int| exists|i: int| 0 <= i < page.len() && page[i].id as int == x)
}

/// The texts a page contributes for publishing, given the ledger contents
/// at the start of the page: one text per issue not seen before, in page
/// order, where marking happens immediately — so a repeated identifier
/// within the page contributes only its first occurrence.
pub open spec fn publish_texts(page: Seq<Issue>, bugs: Set<int>) -> Seq<Seq<char>>
    decreases page.len(),
{
    if page.len() == 0 {
        Seq::empty()
    } else if bugs.contains(page[0].id as int) {
        publish_texts(page.drop_first(), bugs)
    } else {
        seq![issue_text(page[0].summary@, page[0].id as int)] + publish_texts(
            page.drop_first(),
            bugs.insert(page[0].id as int),
        )
    }
}

/// Builds the notification text for one issue.
pub fn render_issue_text(issue: &Issue) -> (r: String)
    ensures
        r@ == issue_text(issue.summary@, issue.id as int),
{
    let mut r = issue.summary.clone();
    r.append(" ");
    r.append("https://project-zero.issues.chromium.org/issues/");
    let digits = crate::num::i64_dec(issue.id);
    r.append(digits.as_str());
    proof {
        assert(r@ =~= issue_text(issue.summary@, issue.id as int));
    }
    r
}

/// Paging state of one tracker pass; never persisted.
pub struct TrackerPass {
    /// Count of issues already listed in earlier pages of this pass: the
    /// offset at which the next page starts.
    pub offset: u64,
    /// Number of pages fetched so far in this pass.
    pub requests: u64,
}

impl TrackerPass {
    /// A fresh pass, starting at the first page.
    pub fn new() -> (r: TrackerPass)
        ensures
            r.offset == 0,
            r.requests == 0,
    {
        TrackerPass { offset: 0, requests: 0 }
    }

    /// Decides whether another page may be fetched: gives the offset to
    /// request while the fetch cap is not reached, and nothing once it is.
    pub fn next_fetch(&self) -> (r: Option<u64>)
        ensures
            r == if self.requests < MAX_PAGE_FETCHES {
                Some(self.offset)
            } else {
                Option::<u64>::None
            },
    {
        if self.requests < MAX_PAGE_FETCHES {
            Some(self.offset)
        } else {
            None
        }
    }

    /// Consumes one fetched page: advances the paging state, marks every
    /// previously unseen issue in the ledger at once, and returns the texts
    /// to publish together with whether the page was full — a short page
    /// ends the pass. The ledger after the call holds exactly the old
    /// contents plus every identifier on the page, whatever later becomes
    /// of the publish attempts.
    pub fn process_page(&mut self, page: &Vec<Issue>, config: &mut Config) -> (r: (Vec<String>, bool))
        requires
            old(config).wf(),
            old(self).offset + page@.len() <= u64::MAX,
            old(self).requests < MAX_PAGE_FETCHES,
        ensures
            final(config).wf(),
            final(config).blogs() == old(config).blogs(),
            final(config).bugs() == old(config).bugs().union(page_ids(page@)),
            r.0@.map_values(|t: String| t@) == publish_texts(page@, old(config).bugs()),
            final(self).offset == old(self).offset + page@.len(),
            final(self).requests == old(self).requests + 1,
            r.1 == (page@.len() >= ISSUE_QUERY_COUNT),
    {
        let ghost bugs0 = old(config).bugs();
        let mut out: Vec<String> = Vec::new();
        let n = page.len();
        proof {
            assert(page@.take(0) =~= Seq::<Issue>::empty());
            assert(page_ids(Seq::<Issue>::empty()) =~= Set::<int>::empty());
            assert(bugs0.union(page_ids(page@.take(0))) =~= bugs0);
            assert(page@.skip(0) =~= page@);
            assert(out@.map_values(|t: String| t@) + publish_texts(page@, bugs0) =~= publish_texts(
                page@,
                bugs0,
            ));
        }
        let mut k: usize = 0;
        while k < n
            invariant
                n == page@.len(),
                k <= n,
                config.wf(),
                config.blogs() == old(config).blogs(),
                config.bugs() == bugs0.union(page_ids(page@.take(k as int))),
                out@.map_values(|t: String| t@) + publish_texts(page@.skip(k as int), config.bugs())
                    == publish_texts(page@, bugs0),
            decreases n - k,
        {
            let ghost bugs_before = config.bugs();
            let ghost rest = page@.skip(k as int);
            proof {
                assert(rest.len() > 0);
                assert(rest[0] == page@[k as int]);
                assert(rest.drop_first() =~= page@.skip(k as int + 1));
            }
            let issue = &page[k];
            if !config.is_bug_posted(issue.id) {
                config.add_posted_bug(issue.id);
                let text = render_issue_text(issue);
                let ghost out_before = out@;
                out.push(text);
                proof {
                    assert(out@.map_values(|t: String| t@) =~= out_before.map_values(
                        |t: String| t@,
                    ).push(issue_text(page@[k as int].summary@, page@[k as int].id as int)));
                    assert(publish_texts(rest, bugs_before) =~= seq![
                        issue_text(rest[0].summary@, rest[0].id as int),
                    ] + publish_texts(rest.drop_first(), bugs_before.insert(rest[0].id as int)));
                    assert(out@.map_values(|t: String| t@) + publish_texts(
                        page@.skip(k as int + 1),
                        config.bugs(),
                    ) =~= publish_texts(page@, bugs0));
                    assert(config.bugs() =~= bugs0.union(page_ids(page@.take(k as int + 1)))) by {
                        assert(page_ids(page@.take(k as int + 1)) =~= page_ids(
                            page@.take(k as int),
                        ).insert(page@[k as int].id as int)) by {
                            lemma_page_ids_take_step(page@, k as int);
                        }
                    }
                }
            } else {
                proof {
                    assert(publish_texts(rest, bugs_before) == publish_texts(
                        rest.drop_first(),
                        bugs_before,
                    ));
                    assert(config.bugs() =~= bugs0.union(page_ids(page@.take(k as int + 1)))) by {
                        assert(page_ids(page@.take(k as int + 1)) =~= page_ids(
                            page@.take(k as int),
                        ).insert(page@[k as int].id as int)) by {
                            lemma_page_ids_take_step(page@, k as int);
                        }
                        assert(bugs_before.contains(page@[k as int].id as int));
                    }
                }
            }
            k += 1;
        }
        proof {
            assert(page@.take(n as int) =~= page@);
            assert(page@.skip(n as int) =~= Seq::<Issue>::empty());
            assert(out@.map_values(|t: String| t@) + publish_texts(
                Seq::<Issue>::empty(),
                config.bugs(),
            ) =~= out@.map_values(|t: String| t@));
        }
        self.offset = self.offset + page.len() as u64;
        self.requests = self.requests + 1;
        let full = page.len() as u64 >= ISSUE_QUERY_COUNT;
        (out, full)
    }
}

/// Extending a page prefix by one issue extends its identifier set by that
/// issue's identifier.
proof fn lemma_page_ids_take_step(page: Seq<Issue>, k: int)
    requires
        0 <= k < page.len(),
    ensures
        page_ids(page.take(k + 1)) == page_ids(page.take(k)).insert(page[k].id as int),
{
    let a = page.take(k + 1);
    let b = page.take(k);
    assert forall|x: int| page_ids(a).contains(x) implies page_ids(b).insert(
        page[k].id as int,
    ).contains(x) by {
        let i = choose|i: int| 0 <= i < a.len() && a[i].id as int == x;
        if i < k {
            assert(0 <= i < b.len() && b[i].id as int == x);
        } else {
            assert(a[i] == page[k]);
        }
    }
    assert forall|x: int|
        page_ids(b).insert(page[k].id as int).contains(x) implies page_ids(a).contains(x) by {
        if x == page[k].id as int {
            assert(0 <= k < a.len() && a[k].id as int == x);
        } else {
            let i = choose|i: int| 0 <= i < b.len() && b[i].id as int == x;
            assert(0 <= i < a.len() && a[i].id as int == x);
        }
    }
    assert(page_ids(a) =~= page_ids(b).insert(page[k].id as int));
}

/// A page all of whose identifiers are already in the ledger contributes
/// nothing to publish.
pub proof fn lemma_seen_page_publishes_nothing(page: Seq<Issue>, bugs: Set<int>)
    requires
        forall|i: int| 0 <= i < page.len() ==> bugs.contains(#[trigger] page[i].id as int),
    ensures
        publish_texts(page, bugs) == Seq::<Seq<char>>::empty(),
    decreases page.len(),
{
    if page.len() > 0 {
        assert(bugs.contains(page[0].id as int));
        assert(forall|i: int|
            0 <= i < page.drop_first().len() ==> bugs.contains(
                #[trigger] page.drop_first()[i].id as int,
            ));
        lemma_seen_page_publishes_nothing(page.drop_first(), bugs);
    }
}

/// Replaying a page against the ledger state left by a pass that already
/// absorbed it publishes nothing: every identifier is seen by then.
pub proof fn lemma_tracker_replay_publishes_nothing(page: Seq<Issue>, bugs: Set<int>)
    ensures
        publish_texts(page, bugs.union(page_ids(page))) == Seq::<Seq<char>>::empty(),
{
    let after = bugs.union(page_ids(page));
    assert forall|i: int| 0 <= i < page.len() implies after.contains(
        #[trigger] page[i].id as int,
    ) by {
        assert(page_ids(page).contains(page[i].id as int));
    }
    lemma_seen_page_publishes_nothing(page, after);
}

/// On a page of pairwise distinct, entirely unseen identifiers, every issue
/// is attempted — one text per issue, in page order — and the ledger
/// afterwards holds every identifier of the page, regardless of how the
/// individual publish attempts later fare.
pub proof fn lemma_unseen_page_all_attempted(page: Seq<Issue>, bugs: Set<int>)
    requires
        forall|i: int, j: int| 0 <= i < j < page.len() ==> page[i].id != page[j].id,
        forall|i: int| 0 <= i < page.len() ==> !bugs.contains(#[trigger] page[i].id as int),
    ensures
        publish_texts(page, bugs) == page.map_values(
            |iss: Issue| issue_text(iss.summary@, iss.id as int),
        ),
        forall|i: int|
            0 <= i < page.len() ==> bugs.union(page_ids(page)).contains(
                #[trigger] page[i].id as int,
            ),
    decreases page.len(),
{
    let f = |iss: Issue| issue_text(iss.summary@, iss.id as int);
    if page.len() == 0 {
        assert(publish_texts(page, bugs) =~= page.map_values(f));
    } else {
        let first = page[0];
        let rest = page.drop_first();
        let bugs1 = bugs.insert(first.id as int);
        assert(forall|i: int, j: int| 0 <= i < j < rest.len() ==> rest[i].id != rest[j].id);
        assert forall|i: int| 0 <= i < rest.len() implies !bugs1.contains(
            #[trigger] rest[i].id as int,
        ) by {
            assert(rest[i] == page[i + 1]);
            assert(page[0].id != page[i + 1].id);
        }
        lemma_unseen_page_all_attempted(rest, bugs1);
        assert(publish_texts(page, bugs) =~= page.map_values(f)) by {
            assert(publish_texts(page, bugs) == seq![f(first)] + publish_texts(rest, bugs1));
            assert(rest.map_values(f) =~= page.map_values(f).drop_first());
        }
    }
    assert forall|i: int| 0 <= i < page.len() implies bugs.union(page_ids(page)).contains(
        #[trigger] page[i].id as int,
    ) by {
        assert(page_ids(page).contains(page[i].id as int));
    }
}

} // verus!
