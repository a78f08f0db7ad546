use bugbot::feed::{feed_next, render_feed_entry, FeedEntry, FeedLink, FeedStep};
use bugbot::num::i64_dec;
use bugbot::publisher::{plan_publish, PublisherConfig, SinkCommand};
use bugbot::scheduler::{advance_phase, CyclePhase};
use bugbot::snapshot::decode_snapshot;
use bugbot::tracker::{render_issue_text, Issue, TrackerPass, ISSUE_QUERY_COUNT};
use bugbot::Config;

fn entry(id: &str, title: Option<&str>, links: Vec<(Option<&str>, &str)>) -> FeedEntry {
    FeedEntry {
        id: id.to_string(),
        title: title.map(|t| t.to_string()),
        links: links
            .into_iter()
            .map(|(rel, href)| FeedLink { rel: rel.map(|r| r.to_string()), href: href.to_string() })
            .collect(),
    }
}

fn simple_entry(id: &str, title: &str, href: &str) -> FeedEntry {
    entry(id, Some(title), vec![(Some("self"), "ignored"), (Some("alternate"), href)])
}

fn issue(id: i64, summary: &str) -> Issue {
    Issue { id, summary: summary.to_string() }
}

fn page(ids: std::ops::Range<i64>) -> Vec<Issue> {
    ids.map(|id| issue(id, "issue")).collect()
}

// Marking an identifier twice is the same as marking it once.
#[test]
fn mark_seen_idempotent_blogs() {
    let mut once = Config::empty();
    once.add_posted_blog("post-1".to_string());
    let mut twice = Config::empty();
    twice.add_posted_blog("post-1".to_string());
    twice.add_posted_blog("post-1".to_string());
    assert!(once.is_blog_posted("post-1"));
    assert!(twice.is_blog_posted("post-1"));
    assert_eq!(once.to_snapshot().as_str(), twice.to_snapshot().as_str());
}

#[test]
fn mark_seen_idempotent_bugs() {
    let mut c = Config::empty();
    c.add_posted_bug(42);
    c.add_posted_bug(42);
    assert!(c.is_bug_posted(42));
    assert!(!c.is_bug_posted(43));
    assert_eq!(c.to_snapshot().as_str(), "{\"posted_blogs\":[],\"posted_bug_ids\":[42]}");
}

// A flush followed by a fresh load reproduces the same membership.
#[test]
fn restart_durability_round_trip() {
    let mut c = Config::empty();
    c.add_posted_blog("tag:blogger.com,1999:blog-1.post-2".to_string());
    c.add_posted_blog("quote \" and backslash \\ survive".to_string());
    c.add_posted_bug(365);
    c.add_posted_bug(-7);
    let text = c.to_snapshot();
    let reloaded = Config::from_snapshot(text.as_str()).expect("snapshot must parse");
    assert!(reloaded.is_blog_posted("tag:blogger.com,1999:blog-1.post-2"));
    assert!(reloaded.is_blog_posted("quote \" and backslash \\ survive"));
    assert!(reloaded.is_bug_posted(365));
    assert!(reloaded.is_bug_posted(-7));
    assert!(!reloaded.is_blog_posted("never seen"));
    assert!(!reloaded.is_bug_posted(366));
    assert_eq!(reloaded.to_snapshot().as_str(), text.as_str());
}

#[test]
fn snapshot_exact_text() {
    let mut c = Config::empty();
    c.add_posted_blog("a".to_string());
    c.add_posted_blog("b".to_string());
    c.add_posted_bug(1);
    c.add_posted_bug(2);
    assert_eq!(
        c.to_snapshot().as_str(),
        "{\"posted_blogs\":[\"a\",\"b\"],\"posted_bug_ids\":[1,2]}"
    );
}

#[test]
fn snapshot_agrees_with_generic_json_reader() {
    let mut c = Config::empty();
    c.add_posted_blog("needs \"escaping\" \\ here".to_string());
    c.add_posted_bug(9007199254740993);
    let text = c.to_snapshot();
    let v: serde_json::Value = serde_json::from_str(text.as_str()).expect("valid JSON");
    let blogs = v.get("posted_blogs").unwrap().as_array().unwrap();
    assert_eq!(blogs.len(), 1);
    assert_eq!(blogs[0].as_str().unwrap(), "needs \"escaping\" \\ here");
    let bugs = v.get("posted_bug_ids").unwrap().as_array().unwrap();
    assert_eq!(bugs.len(), 1);
    assert_eq!(bugs[0].as_i64().unwrap(), 9007199254740993);
}

#[test]
fn snapshot_reads_externally_written_file() {
    let c =
        Config::from_snapshot("{\"posted_blogs\":[\"x\",\"y\"],\"posted_bug_ids\":[5,-12]}")
            .expect("well-formed snapshot");
    assert!(c.is_blog_posted("x"));
    assert!(c.is_blog_posted("y"));
    assert!(c.is_bug_posted(5));
    assert!(c.is_bug_posted(-12));
}

#[test]
fn corrupt_snapshot_is_rejected() {
    for bad in [
        "",
        "{}",
        "garbage",
        "{\"posted_blogs\":[],\"posted_bug_ids\":[]",
        "{\"posted_blogs\":[\"a\"],\"posted_bug_ids\":[1]} ",
        "{\"posted_blogs\":[\"a],\"posted_bug_ids\":[]}",
        "{\"posted_blogs\":[],\"posted_bug_ids\":[99999999999999999999]}",
        "{\"posted_blogs\":[],\"posted_bug_ids\":[1,]}",
    ] {
        assert!(Config::from_snapshot(bad).is_none(), "accepted: {}", bad);
        assert!(decode_snapshot(bad).is_none());
    }
}

#[test]
fn load_or_empty_absorbs_failures() {
    let missing = Config::load_or_empty(None);
    assert!(!missing.is_blog_posted("anything"));
    let corrupt = Config::load_or_empty(Some("not a snapshot"));
    assert!(!corrupt.is_bug_posted(1));
    let good = Config::load_or_empty(Some("{\"posted_blogs\":[\"p\"],\"posted_bug_ids\":[]}"));
    assert!(good.is_blog_posted("p"));
}

#[test]
fn integer_rendering_exact() {
    assert_eq!(i64_dec(0).as_str(), "0");
    assert_eq!(i64_dec(7).as_str(), "7");
    assert_eq!(i64_dec(365).as_str(), "365");
    assert_eq!(i64_dec(-1).as_str(), "-1");
    assert_eq!(i64_dec(i64::MAX).as_str(), "9223372036854775807");
    assert_eq!(i64_dec(i64::MIN).as_str(), "-9223372036854775808");
}

#[test]
fn snapshot_extreme_ids_round_trip() {
    let mut c = Config::empty();
    c.add_posted_bug(i64::MIN);
    c.add_posted_bug(i64::MAX);
    let text = c.to_snapshot();
    let r = Config::from_snapshot(text.as_str()).unwrap();
    assert!(r.is_bug_posted(i64::MIN));
    assert!(r.is_bug_posted(i64::MAX));
}

// Feed cutoff: A and B are published in order, the pass stops at the first
// already-seen entry, and nothing past it is marked.
#[test]
fn feed_cutoff_publishes_until_first_seen() {
    let entries = vec![
        simple_entry("id-a", "A post", "https://blog.example/a"),
        simple_entry("id-b", "B post", "https://blog.example/b"),
        simple_entry("id-c", "C post", "https://blog.example/c"),
        simple_entry("id-d", "D post", "https://blog.example/d"),
    ];
    let mut config = Config::empty();
    config.add_posted_blog("id-c".to_string());

    let mut published: Vec<String> = Vec::new();
    let mut start = 0usize;
    loop {
        match feed_next(&entries, start, &config) {
            FeedStep::Done => break,
            FeedStep::Publish { index, text } => {
                published.push(text);
                config.add_posted_blog(entries[index].id.clone());
                start = index + 1;
            }
        }
    }
    assert_eq!(published.len(), 2);
    assert_eq!(published[0].as_str(), "A post https://blog.example/a");
    assert_eq!(published[1].as_str(), "B post https://blog.example/b");
    assert!(config.is_blog_posted("id-a"));
    assert!(config.is_blog_posted("id-b"));
    assert!(!config.is_blog_posted("id-d"));
}

// A failed publish aborts the pass: the failed entry and everything after
// it stay unmarked, so the next cycle retries from the same point.
#[test]
fn feed_failure_preserves_watermark() {
    let entries = vec![
        simple_entry("id-a", "A post", "https://blog.example/a"),
        simple_entry("id-b", "B post", "https://blog.example/b"),
        simple_entry("id-c", "C post", "https://blog.example/c"),
        simple_entry("id-d", "D post", "https://blog.example/d"),
    ];
    let mut config = Config::empty();
    config.add_posted_blog("id-c".to_string());

    let mut attempts = 0usize;
    let mut start = 0usize;
    loop {
        match feed_next(&entries, start, &config) {
            FeedStep::Done => break,
            FeedStep::Publish { index, text } => {
                attempts += 1;
                let publish_succeeded = attempts <= 1;
                assert!(!text.is_empty());
                if !publish_succeeded {
                    break;
                }
                config.add_posted_blog(entries[index].id.clone());
                start = index + 1;
            }
        }
    }
    assert_eq!(attempts, 2);
    assert!(config.is_blog_posted("id-a"));
    assert!(!config.is_blog_posted("id-b"));
    assert!(!config.is_blog_posted("id-d"));
}

#[test]
fn feed_skips_unrenderable_entries_without_marking() {
    let entries = vec![
        entry("no-title", None, vec![(Some("alternate"), "https://blog.example/x")]),
        entry("no-link", Some("Linkless"), vec![(Some("self"), "https://blog.example/y")]),
        simple_entry("ok", "Fine", "https://blog.example/z"),
    ];
    let config = Config::empty();
    match feed_next(&entries, 0, &config) {
        FeedStep::Publish { index, text } => {
            assert_eq!(index, 2);
            assert_eq!(text.as_str(), "Fine https://blog.example/z");
        }
        FeedStep::Done => panic!("expected a publishable entry"),
    }
    assert!(render_feed_entry(&entries[0]).is_none());
    assert!(render_feed_entry(&entries[1]).is_none());
}

#[test]
fn feed_stops_immediately_when_newest_is_seen() {
    let entries = vec![
        simple_entry("newest", "New", "https://blog.example/n"),
        simple_entry("older", "Old", "https://blog.example/o"),
    ];
    let mut config = Config::empty();
    config.add_posted_blog("newest".to_string());
    assert!(matches!(feed_next(&entries, 0, &config), FeedStep::Done));
    assert!(!config.is_blog_posted("older"));
}

// Tracker pagination: pages of sizes 50, 50, 30 stop after the third page,
// with no fourth fetch.
#[test]
fn tracker_pagination_terminates_on_short_page() {
    let pages = [page(0..50), page(50..100), page(100..130)];
    let mut config = Config::empty();
    let mut pass = TrackerPass::new();
    let mut fetches: Vec<u64> = Vec::new();
    let mut page_index = 0usize;
    loop {
        let offset = match pass.next_fetch() {
            Some(offset) => offset,
            None => break,
        };
        fetches.push(offset);
        let page = &pages[page_index];
        page_index += 1;
        let (_texts, full) = pass.process_page(page, &mut config);
        if !full {
            break;
        }
    }
    assert_eq!(fetches, vec![0, 50, 100]);
    assert!(config.is_bug_posted(0));
    assert!(config.is_bug_posted(129));
}

// Replaying the same pages in a second cycle publishes nothing.
#[test]
fn tracker_replay_publishes_nothing() {
    let pages = [page(0..50), page(50..100), page(100..130)];
    let mut config = Config::empty();

    let mut first_cycle = 0usize;
    let mut pass = TrackerPass::new();
    for p in &pages {
        let (texts, _full) = pass.process_page(p, &mut config);
        first_cycle += texts.len();
    }
    assert_eq!(first_cycle, 130);

    let mut second_cycle = 0usize;
    let mut pass2 = TrackerPass::new();
    for p in &pages {
        let (texts, _full) = pass2.process_page(p, &mut config);
        second_cycle += texts.len();
    }
    assert_eq!(second_cycle, 0);
}

// Fifty unseen items in one page: all fifty are handed out for publishing,
// and the ledger holds all fifty identifiers whatever becomes of the
// individual publish attempts.
#[test]
fn tracker_marks_whole_page_before_publishes_resolve() {
    let p = page(1000..1050);
    assert_eq!(p.len() as u64, ISSUE_QUERY_COUNT);
    let mut config = Config::empty();
    let mut pass = TrackerPass::new();
    let (texts, full) = pass.process_page(&p, &mut config);
    assert!(full);
    assert_eq!(texts.len(), 50);
    for id in 1000..1050 {
        assert!(config.is_bug_posted(id));
    }
    assert_eq!(
        texts[0].as_str(),
        "issue https://project-zero.issues.chromium.org/issues/1000"
    );
}

#[test]
fn tracker_skips_seen_and_duplicate_ids_within_page() {
    let mut config = Config::empty();
    config.add_posted_bug(2);
    let p = vec![issue(1, "one"), issue(2, "two"), issue(1, "one again"), issue(3, "three")];
    let mut pass = TrackerPass::new();
    let (texts, full) = pass.process_page(&p, &mut config);
    assert!(!full);
    assert_eq!(texts.len(), 2);
    assert_eq!(texts[0].as_str(), "one https://project-zero.issues.chromium.org/issues/1");
    assert_eq!(texts[1].as_str(), "three https://project-zero.issues.chromium.org/issues/3");
    assert_eq!(pass.offset, 4);
    assert_eq!(pass.requests, 1);
}

#[test]
fn tracker_fetch_cap_stops_runaway_pagination() {
    let mut config = Config::empty();
    let mut pass = TrackerPass::new();
    let mut fetches = 0u64;
    let mut next_id = 0i64;
    while let Some(offset) = pass.next_fetch() {
        assert_eq!(offset, pass.offset);
        fetches += 1;
        let p = page(next_id..next_id + 50);
        next_id += 50;
        let (_texts, full) = pass.process_page(&p, &mut config);
        assert!(full);
    }
    assert_eq!(fetches, 10);
}

#[test]
fn render_issue_text_exact() {
    let t = render_issue_text(&issue(123, "Buffer overflow in frobnicator"));
    assert_eq!(
        t.as_str(),
        "Buffer overflow in frobnicator https://project-zero.issues.chromium.org/issues/123"
    );
}

// Dry run: with delivery disabled no command asks for the sink, and the
// ledger evolves exactly as it does with delivery enabled.
#[test]
fn dry_run_suppresses_delivery_but_not_ledger() {
    let live = PublisherConfig { delivery_enabled: true };
    let dry = PublisherConfig { delivery_enabled: false };
    match plan_publish(&live, "hello".to_string()) {
        SinkCommand::Deliver { text } => assert_eq!(text.as_str(), "hello"),
        SinkCommand::LogOnly { .. } => panic!("live mode must deliver"),
    }
    match plan_publish(&dry, "hello".to_string()) {
        SinkCommand::LogOnly { text } => assert_eq!(text.as_str(), "hello"),
        SinkCommand::Deliver { .. } => panic!("dry run must not deliver"),
    }

    let p = page(0..30);
    let mut ledger_live = Config::empty();
    let mut ledger_dry = Config::empty();
    let mut pass_live = TrackerPass::new();
    let mut pass_dry = TrackerPass::new();
    let (texts_live, _) = pass_live.process_page(&p, &mut ledger_live);
    let (texts_dry, _) = pass_dry.process_page(&p, &mut ledger_dry);
    assert_eq!(texts_live.len(), texts_dry.len());
    assert_eq!(ledger_live.to_snapshot().as_str(), ledger_dry.to_snapshot().as_str());
}

#[test]
fn cycle_phases_run_in_fixed_order_despite_failures() {
    let after_feed = advance_phase(&CyclePhase::FeedStep, true);
    assert!(matches!(after_feed, CyclePhase::TrackerStep));
    let after_tracker = advance_phase(&after_feed, false);
    assert!(matches!(after_tracker, CyclePhase::FlushStep));
    let after_flush = advance_phase(&after_tracker, true);
    assert!(matches!(after_flush, CyclePhase::Sleeping));
    let next_cycle = advance_phase(&after_flush, false);
    assert!(matches!(next_cycle, CyclePhase::FeedStep));
}
