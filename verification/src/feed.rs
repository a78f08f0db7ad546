//! Orchestration of one polling pass over the chronological feed.
//!
//! The feed reports its entries newest first and offers no stable
//! pagination, so the first already-seen entry is the only reliable
//! watermark: the pass walks the batch in order, publishes each unseen
//! renderable entry and marks it seen only after its publish succeeded,
//! and stops for the whole cycle at the first entry the ledger already
//! knows. A failed publish aborts the rest of the pass without marking
//! anything, so the next cycle retries from the same point.

use vstd::prelude::*;

use crate::ledger::Config;

verus! {

/// One link of a feed entry: an optional relation tag and a target address.
pub struct FeedLink {
    pub rel: Option<String>,
    pub href: String,
}

/// One feed entry as the source reports it: a stable string identifier, an
/// optional title, and its links.
pub struct FeedEntry {
    pub id: String,
    pub title: Option<String>,
    pub links: Vec<FeedLink>,
}

/// Whether a link carries the relation that marks the entry's canonical
/// address.
pub open spec fn is_alternate(l: FeedLink) -> bool {
    match l.rel {
        Some(r) => r@ == "alternate"@,
        None => false,
    }
}

/// The first link with the canonical relation, if any.
pub open spec fn first_alternate(links: Seq<FeedLink>) -> Option<FeedLink>
    decreases links.len(),
{
    if links.len() == 0 {
        None
    } else if is_alternate(links[0]) {
        Some(links[0])
    } else {
        first_alternate(links.drop_first())
    }
}

/// The notification text for a feed entry: its title, a space, and its
/// canonical address. An entry without a title or without a canonical link
/// has no text and is skipped without being marked seen.
pub open spec fn render_entry(e: FeedEntry) -> Option<Seq<char>> {
    match e.title {
        None => None,
        Some(t) => match first_alternate(e.links@) {
            None => None,
            Some(l) => Some(t@ + " "@ + l.href@),
        },
    }
}

/// Finds the first link with the canonical relation.
fn find_alternate(links: &Vec<FeedLink>) -> (r: Option<&FeedLink>)
    ensures
        match r {
            Some(l) => first_alternate(links@) == Some(*l),
            None => first_alternate(links@) is None,
        },
{
    let alt: String = "alternate".to_owned();
    let n = links.len();
    let mut k: usize = 0;
    proof {
        assert(links@.skip(0) =~= links@);
    }
    while k < n
        invariant
            n == links@.len(),
            k <= n,
            alt@ == "alternate"@,
            first_alternate(links@) == first_alternate(links@.skip(k as int)),
        decreases n - k,
    {
        let ghost rest = links@.skip(k as int);
        proof {
            assert(rest[0] == links@[k as int]);
            assert(rest.drop_first() =~= links@.skip(k as int + 1));
        }
        let l = &links[k];
        let hit = match &l.rel {
            Some(r) => *r == alt,
            None => false,
        };
        if hit {
            proof {
                assert(is_alternate(links@[k as int]));
            }
            return Some(l);
        }
        proof {
            assert(!is_alternate(links@[k as int]));
        }
        k += 1;
    }
    proof {
        assert(links@.skip(n as int) =~= Seq::<FeedLink>::empty());
    }
    None
}

/// Builds the notification text for a feed entry, if it has one.
pub fn render_feed_entry(e: &FeedEntry) -> (r: Option<String>)
    ensures
        match r {
            Some(t) => render_entry(*e) == Some(t@),
            None => render_entry(*e) is None,
        },
{
    match &e.title {
        None => None,
        Some(title) => match find_alternate(&e.links) {
            None => None,
            Some(l) => {
                let mut t = title.clone();
                t.append(" ");
                t.append(l.href.as_str());
                proof {
                    assert(t@ =~= title@ + " "@ + l.href@);
                }
                Some(t)
            },
        },
    }
}

/// Where the pass stands at a given position: the index of the next entry
/// to publish — the first renderable unseen entry before any seen one — or
/// nothing when the pass is over, because a seen entry or the end of the
/// batch comes first.
pub open spec fn feed_next_spec(entries: Seq<FeedEntry>, start: int, blogs: Set<Seq<char>>) -> Option<
    int,
>
    decreases entries.len() - start,
{
    if start < 0 || start >= entries.len() {
        None
    } else if blogs.contains(entries[start].id@) {
        None
    } else if render_entry(entries[start]) is Some {
        Some(start)
    } else {
        feed_next_spec(entries, start + 1, blogs)
    }
}

/// The next action of a feed pass.
pub enum FeedStep {
    /// Publish this text, and after the publish succeeds mark the entry at
    /// this index seen and resume just past it.
    Publish { index: usize, text: String },
    /// The pass is over for this cycle.
    Done,
}

/// Decides the next action of the pass from the batch, the current
/// position, and the ledger.
pub fn feed_next(entries: &Vec<FeedEntry>, start: usize, config: &Config) -> (r: FeedStep)
    ensures
        match r {
            FeedStep::Publish { index, text } => {
                &&& feed_next_spec(entries@, start as int, config.blogs()) == Some(index as int)
                &&& index < entries@.len()
                &&& Some(text@) == render_entry(entries@[index as int])
            },
            FeedStep::Done => feed_next_spec(entries@, start as int, config.blogs()) is None,
        },
{
    let n = entries.len();
    let mut k: usize = start;
    while k < n
        invariant
            n == entries@.len(),
            feed_next_spec(entries@, start as int, config.blogs()) == feed_next_spec(
                entries@,
                k as int,
                config.blogs(),
            ),
        decreases n - k,
    {
        let e = &entries[k];
        if config.is_blog_posted(e.id.as_str()) {
            return FeedStep::Done;
        }
        match render_feed_entry(e) {
            Some(text) => {
                return FeedStep::Publish { index: k, text };
            },
            None => {
                k += 1;
            },
        }
    }
    FeedStep::Done
}

/// What one whole feed pass comes to, as a function of the batch, the
/// starting position, the ledger, and how many publish attempts will still
/// succeed before one fails: the indices published in order, the ledger
/// contents afterwards, and whether the pass was aborted by a failed
/// publish.
pub struct FeedOutcome {
    pub published: Seq<int>,
    pub blogs: Set<Seq<char>>,
    pub aborted: bool,
}

/// The run of a feed pass. Each unseen renderable entry is published and —
/// only on success — marked seen; a failed publish aborts the pass with the
/// ledger as it stood; a seen entry or the end of the batch finishes the
/// pass cleanly.
pub open spec fn feed_run(
    entries: Seq<FeedEntry>,
    start: int,
    blogs: Set<Seq<char>>,
    successes: nat,
) -> FeedOutcome
    decreases entries.len() - start,
{
    if start < 0 || start >= entries.len() {
        FeedOutcome { published: Seq::empty(), blogs, aborted: false }
    } else if blogs.contains(entries[start].id@) {
        FeedOutcome { published: Seq::empty(), blogs, aborted: false }
    } else if render_entry(entries[start]) is None {
        feed_run(entries, start + 1, blogs, successes)
    } else if successes == 0 {
        FeedOutcome { published: Seq::empty(), blogs, aborted: true }
    } else {
        let rest = feed_run(
            entries,
            start + 1,
            blogs.insert(entries[start].id@),
            (successes - 1) as nat,
        );
        FeedOutcome {
            published: seq![start] + rest.published,
            blogs: rest.blogs,
            aborted: rest.aborted,
        }
    }
}

/// The run is exactly the iteration of the step function: where the step
/// finds nothing the run is over with the ledger untouched; where it finds
/// an entry, a successful publish continues the run just past that entry
/// with its identifier recorded, and a failed publish aborts the run with
/// the ledger as it stood.
pub proof fn lemma_feed_run_step(
    entries: Seq<FeedEntry>,
    start: int,
    blogs: Set<Seq<char>>,
    successes: nat,
)
    requires
        0 <= start,
    ensures
        feed_next_spec(entries, start, blogs) is None ==> feed_run(entries, start, blogs, successes)
            == (FeedOutcome { published: Seq::empty(), blogs, aborted: false }),
        forall|j: int|
            feed_next_spec(entries, start, blogs) == Some(j) && successes > 0 ==> feed_run(
                entries,
                start,
                blogs,
                successes,
            ) == (FeedOutcome {
                published: seq![j] + feed_run(
                    entries,
                    j + 1,
                    blogs.insert(entries[j].id@),
                    (successes - 1) as nat,
                ).published,
                blogs: feed_run(
                    entries,
                    j + 1,
                    blogs.insert(entries[j].id@),
                    (successes - 1) as nat,
                ).blogs,
                aborted: feed_run(
                    entries,
                    j + 1,
                    blogs.insert(entries[j].id@),
                    (successes - 1) as nat,
                ).aborted,
            }),
        forall|j: int|
            feed_next_spec(entries, start, blogs) == Some(j) && successes == 0 ==> feed_run(
                entries,
                start,
                blogs,
                successes,
            ) == (FeedOutcome { published: Seq::empty(), blogs, aborted: true }),
    decreases entries.len() - start,
{
    if start >= entries.len() {
    } else if blogs.contains(entries[start].id@) {
    } else if render_entry(entries[start]) is None {
        lemma_feed_run_step(entries, start + 1, blogs, successes);
    } else {
        assert(feed_next_spec(entries, start, blogs) == Some(start));
    }
}

/// Sequential cutoff: in a newest-first batch of four entries whose third
/// is already seen and whose first two are unseen and renderable, a pass
/// with enough successful publishes publishes exactly the first two in
/// order, stops at the third, and records only the first two identifiers —
/// the seen entry and everything past it are left untouched.
pub proof fn lemma_feed_cutoff(
    a: FeedEntry,
    b: FeedEntry,
    c: FeedEntry,
    d: FeedEntry,
    blogs: Set<Seq<char>>,
    successes: nat,
)
    requires
        render_entry(a) is Some,
        render_entry(b) is Some,
        !blogs.contains(a.id@),
        !blogs.contains(b.id@),
        blogs.contains(c.id@),
        !blogs.contains(d.id@),
        a.id@ != b.id@,
        d.id@ != a.id@,
        d.id@ != b.id@,
        successes >= 2,
    ensures
        feed_run(seq![a, b, c, d], 0, blogs, successes).published == seq![0int, 1int],
        feed_run(seq![a, b, c, d], 0, blogs, successes).aborted == false,
        feed_run(seq![a, b, c, d], 0, blogs, successes).blogs == blogs.insert(a.id@).insert(b.id@),
        !feed_run(seq![a, b, c, d], 0, blogs, successes).blogs.contains(d.id@),
{
    let e = seq![a, b, c, d];
    let blogs1 = blogs.insert(a.id@);
    let blogs2 = blogs1.insert(b.id@);
    let s1 = (successes - 1) as nat;
    let s2 = (s1 - 1) as nat;
    assert(e[0] == a && e[1] == b && e[2] == c && e[3] == d);
    assert(blogs2.contains(c.id@));
    let run2 = feed_run(e, 2, blogs2, s2);
    assert(run2.published == Seq::<int>::empty() && run2.blogs == blogs2 && !run2.aborted);
    assert(!blogs1.contains(b.id@));
    let run1 = feed_run(e, 1, blogs1, s1);
    assert(run1.published == seq![1int] + run2.published && run1.blogs == run2.blogs
        && run1.aborted == run2.aborted);
    let run0 = feed_run(e, 0, blogs, successes);
    assert(run0.published == seq![0int] + run1.published && run0.blogs == run1.blogs
        && run0.aborted == run1.aborted);
    assert(run0.published =~= seq![0int, 1int]);
}

/// A failed publish preserves the watermark: with the same batch but only
/// one successful publish before a failure, the first entry is published
/// and recorded, the second is attempted but — having failed — never
/// recorded, and the pass aborts without touching the rest of the batch.
pub proof fn lemma_feed_failure_preserves_watermark(
    a: FeedEntry,
    b: FeedEntry,
    c: FeedEntry,
    d: FeedEntry,
    blogs: Set<Seq<char>>,
)
    requires
        render_entry(a) is Some,
        render_entry(b) is Some,
        !blogs.contains(a.id@),
        !blogs.contains(b.id@),
        blogs.contains(c.id@),
        !blogs.contains(d.id@),
        a.id@ != b.id@,
        d.id@ != a.id@,
    ensures
        feed_run(seq![a, b, c, d], 0, blogs, 1).published == seq![0int],
        feed_run(seq![a, b, c, d], 0, blogs, 1).aborted == true,
        feed_run(seq![a, b, c, d], 0, blogs, 1).blogs == blogs.insert(a.id@),
        feed_run(seq![a, b, c, d], 0, blogs, 1).blogs.contains(a.id@),
        !feed_run(seq![a, b, c, d], 0, blogs, 1).blogs.contains(b.id@),
        !feed_run(seq![a, b, c, d], 0, blogs, 1).blogs.contains(d.id@),
{
    let e = seq![a, b, c, d];
    let blogs1 = blogs.insert(a.id@);
    assert(e[0] == a && e[1] == b);
    assert(!blogs1.contains(b.id@));
    let run1 = feed_run(e, 1, blogs1, 0);
    assert(run1.published == Seq::<int>::empty() && run1.blogs == blogs1 && run1.aborted);
    let run0 = feed_run(e, 0, blogs, 1);
    assert(run0.published == seq![0int] + run1.published && run0.blogs == run1.blogs
        && run0.aborted == run1.aborted);
    assert(run0.published =~= seq![0int]);
}

} // verus!
