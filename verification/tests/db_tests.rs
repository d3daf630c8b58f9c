use watchprice::currency::{CurrencyRateTable, CurrencyRates, RatePoint};
use watchprice::scrapers::{
    advance_page, apply_detail_text, candidate_entry, crawl_begin, crawl_has_more,
    crawl_should_stop, dedup_by_id, finalize_crawl, note_page_outcome, reconcile_entry,
    should_checkpoint, should_retry, skip_sticky, PriceDatabase, ReconcileOutcome, RolexForums,
    RolexForumsEntry, ROLEX_FORUMS_ID_ROLEX_ONLY,
};

fn entry(id: u64, timestamp: i64) -> RolexForumsEntry {
    RolexForumsEntry {
        id,
        timestamp,
        price: None,
        is_sold: false,
        brand: format!("brand{id}"),
        model_no: format!("m{id}"),
    }
}

fn ids(v: &Vec<RolexForumsEntry>) -> Vec<u64> {
    v.iter().map(|e| e.id).collect()
}

#[test]
fn dedup_by_id_keeps_last_write() {
    let mut v = vec![entry(1, 10), entry(2, 20), entry(1, 30)];
    dedup_by_id(&mut v);
    assert_eq!(ids(&v), vec![1, 2]);
    assert_eq!(v[0].timestamp, 30);
}

#[test]
fn dedup_by_id_is_idempotent() {
    let mut once = vec![entry(3, 1), entry(1, 2), entry(3, 3), entry(2, 4)];
    dedup_by_id(&mut once);
    let mut twice: Vec<RolexForumsEntry> = once.iter().map(|e| e.duplicate()).collect();
    dedup_by_id(&mut twice);
    assert_eq!(ids(&once), ids(&twice));
    for (a, b) in once.iter().zip(twice.iter()) {
        assert_eq!(a.timestamp, b.timestamp);
    }
}

#[test]
fn finalize_sorts_and_dedups() {
    let mut db = PriceDatabase {
        name: "t".to_string(),
        timestamp: 0,
        entries: vec![entry(5, 50), entry(1, 30), entry(5, 10), entry(2, 20)],
        position: 7,
    };
    finalize_crawl(&mut db);
    assert_eq!(db.position, 0);
    // unique ids, timestamps never decreasing
    let ts: Vec<i64> = db.entries.iter().map(|e| e.timestamp).collect();
    assert_eq!(ts, vec![10, 20, 30]);
    assert_eq!(ids(&db.entries), vec![5, 2, 1]);
}

#[test]
fn reconcile_classifies_entries() {
    let mut db = PriceDatabase {
        name: "t".to_string(),
        timestamp: 0,
        entries: vec![entry(1, 10)],
        position: 0,
    };
    match reconcile_entry(&mut db, entry(2, 20)) {
        ReconcileOutcome::New(i) => assert_eq!(i, 1),
        _ => panic!("fresh id must be new"),
    }
    match reconcile_entry(&mut db, entry(1, 99)) {
        ReconcileOutcome::Updated(i) => assert_eq!(i, 0),
        _ => panic!("changed timestamp must update"),
    }
    assert_eq!(db.entries[0].timestamp, 99);
    match reconcile_entry(&mut db, entry(1, 99)) {
        ReconcileOutcome::Unchanged => {}
        _ => panic!("same timestamp must be unchanged"),
    }
}

#[test]
fn crawl_state_machine_converges() {
    let mut st = crawl_begin(0);
    assert_eq!(st.position, 1);
    assert_eq!(st.max_page, 1000);
    assert!(crawl_has_more(&st));
    // a page with changes resets the streak
    note_page_outcome(&mut st, 1, 3, 500);
    assert_eq!(st.unchanged_streak, 0);
    assert_eq!(st.max_page, 500);
    advance_page(&mut st);
    assert_eq!(st.position, 2);
    assert!(!crawl_should_stop(&st));
    // one fully unchanged page stops the crawl
    note_page_outcome(&mut st, 4, 4, 500);
    assert!(crawl_should_stop(&st));
    // an empty page does not count as unchanged
    let mut st2 = crawl_begin(90);
    assert_eq!(st2.position, 90);
    assert_eq!(st2.max_page, 1000);
    note_page_outcome(&mut st2, 0, 0, 1000);
    assert!(!crawl_should_stop(&st2));
}

#[test]
fn checkpoints_every_tenth_page() {
    assert!(!should_checkpoint(0));
    assert!(!should_checkpoint(9));
    assert!(should_checkpoint(10));
    assert!(!should_checkpoint(11));
    assert!(should_checkpoint(120));
}

#[test]
fn crawler_names_follow_the_section() {
    let c = RolexForums::new(ROLEX_FORUMS_ID_ROLEX_ONLY);
    assert_eq!(c.forum_id, 9);
    assert_eq!(c.db.name, "RolexForums_9");
    assert_eq!(c.db.position, 0);
    assert!(c.db.entries.is_empty());
}

#[test]
fn entry_links_point_at_the_thread() {
    let e = entry(3133742, 0);
    assert_eq!(
        e.link(),
        "https://www.rolexforums.com/showthread.php?t=3133742"
    );
    assert_eq!(e.url(), e.link());
}

#[test]
fn detail_pass_updates_sold_and_price() {
    let rates: CurrencyRateTable = vec![CurrencyRates {
        code: "usd".to_string(),
        rates: vec![RatePoint {
            timestamp: 0,
            rate_micro: 1_000_000,
        }],
    }];
    let mut e = entry(1, 0);
    apply_detail_text(&mut e, "not sold yet, asking $100", &rates);
    assert!(!e.is_sold);
    assert_eq!(e.price, Some(10000));
    apply_detail_text(&mut e, "SOLD to a forum member", &rates);
    assert!(e.is_sold);
    // a fragment without a price keeps the stored price
    assert_eq!(e.price, Some(10000));
}

#[test]
fn page_candidate_decisions() {
    // sticky rows exist only at the head of the first page
    assert!(skip_sticky(1, 0));
    assert!(skip_sticky(1, 2));
    assert!(!skip_sticky(1, 3));
    assert!(!skip_sticky(2, 0));
    // a failed fetch gets three attempts
    assert!(should_retry(0));
    assert!(should_retry(2));
    assert!(!should_retry(3));
    // a model number with a currency artifact drops the post
    let kept = candidate_entry(7, 42, "Rolex".to_string(), "126300".to_string()).unwrap();
    assert_eq!(kept.id, 7);
    assert_eq!(kept.timestamp, 42);
    assert_eq!(kept.price, None);
    assert!(!kept.is_sold);
    assert_eq!(kept.model_no, "126300");
    assert!(candidate_entry(7, 42, "Rolex".to_string(), "$1.200".to_string()).is_none());
}
