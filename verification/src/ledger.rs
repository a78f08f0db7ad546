//! The deduplication ledger: two monotonically growing sets of item
//! identifiers, one for feed entries (string identifiers) and one for
//! tracker issues (integer identifiers). Membership answers "was this item
//! already published?"; insertion is idempotent and nothing is ever removed.

use vstd::prelude::*;

use crate::snapshot::decode_snapshot;
use crate::snapshot::encode_snapshot;
use crate::snapshot::int_set;
use crate::snapshot::lemma_int_set_take_step;
use crate::snapshot::lemma_snapshot_round_trip;
use crate::snapshot::lemma_str_set_take_step;
use crate::snapshot::parse_snapshot;
use crate::snapshot::snapshot_spec;
use crate::snapshot::str_set;

verus! {

/// The in-memory ledger. The two vectors hold each identifier at most once,
/// so they represent sets; the order of the entries carries no meaning.
pub struct Config {
    posted_blogs: Vec<String>,
    posted_bug_ids: Vec<i64>,
}

impl Config {
    /// The set of feed identifiers recorded as published.
    pub closed spec fn blogs(&self) -> Set<Seq<char>> {
        Set::new(
            |x: Seq<char>|
                exists|i: int|
                    0 <= i < self.posted_blogs@.len() && self.posted_blogs@[i]@ == x,
        )
    }

    /// The set of tracker issue identifiers recorded as published.
    pub closed spec fn bugs(&self) -> Set<int> {
        Set::new(
            |x: int|
                exists|i: int|
                    0 <= i < self.posted_bug_ids@.len() && self.posted_bug_ids@[i] as int == x,
        )
    }

    /// Each identifier occurs at most once in its vector.
    pub closed spec fn wf(&self) -> bool {
        &&& forall|i: int, j: int|
            0 <= i < j < self.posted_blogs@.len() ==> self.posted_blogs@[i]@ != self.posted_blogs@[j]@
        &&& forall|i: int, j: int|
            0 <= i < j < self.posted_bug_ids@.len() ==> self.posted_bug_ids@[i] != self.posted_bug_ids@[j]
    }

    /// A ledger with nothing recorded: the fallback when no snapshot can be
    /// read.
    pub fn empty() -> (c: Config)
        ensures
            c.wf(),
            c.blogs() == Set::<Seq<char>>::empty(),
            c.bugs() == Set::<int>::empty(),
    {
        let c = Config { posted_blogs: Vec::new(), posted_bug_ids: Vec::new() };
        proof {
            assert(c.blogs() =~= Set::<Seq<char>>::empty());
            assert(c.bugs() =~= Set::<int>::empty());
        }
        c
    }

    /// Pure membership test for a feed identifier; no side effect.
    pub fn is_blog_posted(&self, id: &str) -> (r: bool)
        ensures
            r == self.blogs().contains(id@),
    {
        let n = self.posted_blogs.len();
        let id_string: String = id.to_owned();
        let mut k: usize = 0;
        while k < n
            invariant
                n == self.posted_blogs@.len(),
                id_string@ == id@,
                forall|i: int| 0 <= i < k ==> self.posted_blogs@[i]@ != id@,
            decreases n - k,
        {
            if self.posted_blogs[k] == id_string {
                return true;
            }
            k += 1;
        }
        false
    }

    /// Idempotent insert of a feed identifier.
    pub fn add_posted_blog(&mut self, id: String)
        requires
            old(self).wf(),
        ensures
            final(self).wf(),
            final(self).blogs() == old(self).blogs().insert(id@),
            final(self).bugs() == old(self).bugs(),
    {
        if !self.is_blog_posted(id.as_str()) {
            let ghost idv = id@;
            self.posted_blogs.push(id);
            proof {
                let oldv = old(self).posted_blogs@;
                let newv = self.posted_blogs@;
                assert forall|x: Seq<char>| self.blogs().contains(x) implies old(self).blogs().insert(
                    idv,
                ).contains(x) by {
                    let i = choose|i: int| 0 <= i < newv.len() && newv[i]@ == x;
                    if i < oldv.len() {
                        assert(0 <= i < oldv.len() && oldv[i]@ == x);
                    } else {
                        assert(x == idv);
                    }
                }
                assert forall|x: Seq<char>|
                    old(self).blogs().insert(idv).contains(x) implies self.blogs().contains(x) by {
                    if x == idv {
                        assert(0 <= oldv.len() < newv.len() && newv[oldv.len() as int]@ == x);
                    } else {
                        let i = choose|i: int| 0 <= i < oldv.len() && oldv[i]@ == x;
                        assert(0 <= i < newv.len() && newv[i]@ == x);
                    }
                }
                assert(self.blogs() =~= old(self).blogs().insert(idv));
                assert(self.bugs() =~= old(self).bugs());
            }
        } else {
            proof {
                assert(self.blogs() =~= old(self).blogs().insert(id@));
            }
        }
    }

    /// Pure membership test for a tracker issue identifier; no side effect.
    pub fn is_bug_posted(&self, id: i64) -> (r: bool)
        ensures
            r == self.bugs().contains(id as int),
    {
        let n = self.posted_bug_ids.len();
        let mut k: usize = 0;
        while k < n
            invariant
                n == self.posted_bug_ids@.len(),
                forall|i: int| 0 <= i < k ==> self.posted_bug_ids@[i] != id,
            decreases n - k,
        {
            if self.posted_bug_ids[k] == id {
                return true;
            }
            k += 1;
        }
        false
    }

    /// The feed identifiers in their stored order; the order carries no
    /// meaning beyond fixing the snapshot text.
    pub closed spec fn blogs_list(&self) -> Seq<Seq<char>> {
        self.posted_blogs@.map_values(|s: String| s@)
    }

    /// The tracker identifiers in their stored order.
    pub closed spec fn bugs_list(&self) -> Seq<i64> {
        self.posted_bug_ids@
    }

    /// The membership sets of the two stored lists are exactly the two
    /// ledger sets.
    pub proof fn lemma_lists_model(&self)
        ensures
            str_set(self.blogs_list()) == self.blogs(),
            int_set(self.bugs_list()) == self.bugs(),
    {
        assert forall|x: Seq<char>| str_set(self.blogs_list()).contains(x) implies self.blogs()
            .contains(x) by {
            let i = choose|i: int|
                0 <= i < self.blogs_list().len() && self.blogs_list()[i] == x;
            assert(self.posted_blogs@[i]@ == x);
        }
        assert forall|x: Seq<char>| self.blogs().contains(x) implies str_set(
            self.blogs_list(),
        ).contains(x) by {
            let i = choose|i: int|
                0 <= i < self.posted_blogs@.len() && self.posted_blogs@[i]@ == x;
            assert(self.blogs_list()[i] == x);
        }
        assert(str_set(self.blogs_list()) =~= self.blogs());
        assert(int_set(self.bugs_list()) =~= self.bugs());
    }

    /// The snapshot text of this ledger, ready to be persisted.
    pub fn to_snapshot(&self) -> (r: String)
        ensures
            r@ == snapshot_spec(self.blogs_list(), self.bugs_list()),
    {
        encode_snapshot(&self.posted_blogs, &self.posted_bug_ids)
    }

    /// Rebuilds a ledger from a snapshot text: the parsed identifiers, as
    /// sets — duplicates in a hand-edited file collapse — or nothing if
    /// the text is not a snapshot.
    pub fn from_snapshot(s: &str) -> (r: Option<Config>)
        ensures
            match (r, parse_snapshot(s@)) {
                (Some(c), Some(p)) => c.wf() && c.blogs() == str_set(p.0) && c.bugs() == int_set(
                    p.1,
                ),
                (None, None) => true,
                _ => false,
            },
    {
        match decode_snapshot(s) {
            None => None,
            Some((bl, bg)) => {
                let ghost blv = bl@.map_values(|t: String| t@);
                let ghost bgv = bg@;
                let mut c = Config::empty();
                proof {
                    assert(blv.take(0) =~= Seq::<Seq<char>>::empty());
                    assert(str_set(blv.take(0)) =~= Set::<Seq<char>>::empty());
                    assert(bgv.take(0) =~= Seq::<i64>::empty());
                    assert(int_set(bgv.take(0)) =~= Set::<int>::empty());
                }
                let n1 = bl.len();
                let mut k: usize = 0;
                while k < n1
                    invariant
                        n1 == bl@.len(),
                        k <= n1,
                        blv == bl@.map_values(|t: String| t@),
                        c.wf(),
                        c.blogs() == str_set(blv.take(k as int)),
                        c.bugs() == Set::<int>::empty(),
                    decreases n1 - k,
                {
                    c.add_posted_blog(bl[k].clone());
                    proof {
                        lemma_str_set_take_step(blv, k as int);
                        assert(blv[k as int] == bl@[k as int]@);
                    }
                    k += 1;
                }
                proof {
                    assert(blv.take(n1 as int) =~= blv);
                }
                let n2 = bg.len();
                let mut k2: usize = 0;
                while k2 < n2
                    invariant
                        n2 == bg@.len(),
                        k2 <= n2,
                        bgv == bg@,
                        c.wf(),
                        c.blogs() == str_set(blv),
                        c.bugs() == int_set(bgv.take(k2 as int)),
                    decreases n2 - k2,
                {
                    c.add_posted_bug(bg[k2]);
                    proof {
                        lemma_int_set_take_step(bgv, k2 as int);
                    }
                    k2 += 1;
                }
                proof {
                    assert(bgv.take(n2 as int) =~= bgv);
                }
                Some(c)
            },
        }
    }

    /// Builds the ledger the process starts from: the snapshot's contents
    /// where a readable snapshot is at hand, and an empty ledger where the
    /// file is missing or does not parse — never a failure.
    pub fn load_or_empty(snapshot: Option<&str>) -> (c: Config)
        ensures
            c.wf(),
            match snapshot {
                None => c.blogs() == Set::<Seq<char>>::empty() && c.bugs() == Set::<int>::empty(),
                Some(t) => match parse_snapshot(t@) {
                    None => c.blogs() == Set::<Seq<char>>::empty() && c.bugs()
                        == Set::<int>::empty(),
                    Some(p) => c.blogs() == str_set(p.0) && c.bugs() == int_set(p.1),
                },
            },
    {
        match snapshot {
            None => Config::empty(),
            Some(t) => match Config::from_snapshot(t) {
                None => Config::empty(),
                Some(c) => c,
            },
        }
    }

    /// Idempotent insert of a tracker issue identifier.
    pub fn add_posted_bug(&mut self, id: i64)
        requires
            old(self).wf(),
        ensures
            final(self).wf(),
            final(self).bugs() == old(self).bugs().insert(id as int),
            final(self).blogs() == old(self).blogs(),
    {
        if !self.is_bug_posted(id) {
            self.posted_bug_ids.push(id);
            proof {
                let oldv = old(self).posted_bug_ids@;
                let newv = self.posted_bug_ids@;
                assert forall|x: int| self.bugs().contains(x) implies old(self).bugs().insert(
                    id as int,
                ).contains(x) by {
                    let i = choose|i: int| 0 <= i < newv.len() && newv[i] as int == x;
                    if i < oldv.len() {
                        assert(0 <= i < oldv.len() && oldv[i] as int == x);
                    } else {
                        assert(x == id as int);
                    }
                }
                assert forall|x: int|
                    old(self).bugs().insert(id as int).contains(x) implies self.bugs().contains(
                    x,
                ) by {
                    if x == id as int {
                        assert(0 <= oldv.len() < newv.len() && newv[oldv.len() as int] as int == x);
                    } else {
                        let i = choose|i: int| 0 <= i < oldv.len() && oldv[i] as int == x;
                        assert(0 <= i < newv.len() && newv[i] as int == x);
                    }
                }
                assert(self.bugs() =~= old(self).bugs().insert(id as int));
                assert(self.blogs() =~= old(self).blogs());
            }
        } else {
            proof {
                assert(self.bugs() =~= old(self).bugs().insert(id as int));
            }
        }
    }
}


/// Restart durability: the snapshot text a ledger flushes parses back to
/// exactly the lists it was written from, and their membership sets are
/// the ledger's own sets — so a flush followed by a fresh load yields a
/// ledger with the same membership, whatever order the lists were in.
pub proof fn lemma_restart_durability(c: Config)
    ensures
        parse_snapshot(snapshot_spec(c.blogs_list(), c.bugs_list())) == Some(
            (c.blogs_list(), c.bugs_list()),
        ),
        str_set(c.blogs_list()) == c.blogs(),
        int_set(c.bugs_list()) == c.bugs(),
{
    lemma_snapshot_round_trip(c.blogs_list(), c.bugs_list());
    c.lemma_lists_model();
}

/// Recording a feed identifier twice leaves the ledger exactly as recording
/// it once does, and the identifier is a member afterwards.
pub proof fn lemma_mark_blog_idempotent(blogs: Set<Seq<char>>, id: Seq<char>)
    ensures
        blogs.insert(id).insert(id) == blogs.insert(id),
        blogs.insert(id).contains(id),
{
    assert(blogs.insert(id).insert(id) =~= blogs.insert(id));
}

/// Recording a tracker identifier twice leaves the ledger exactly as
/// recording it once does, and the identifier is a member afterwards.
pub proof fn lemma_mark_bug_idempotent(bugs: Set<int>, id: int)
    ensures
        bugs.insert(id).insert(id) == bugs.insert(id),
        bugs.insert(id).contains(id),
{
    assert(bugs.insert(id).insert(id) =~= bugs.insert(id));
}

} // verus!
