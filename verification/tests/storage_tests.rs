use yafr::status::Status;
use yafr::status::READ_BIT;
use yafr::status::STARRED_BIT;
use yafr::store::Storage;
use yafr::store::StorageError;
use yafr::types::Entry;
use yafr::types::Feed;

fn mk_feed(id: &str) -> Feed {
    Feed {
        id: id.to_string(),
        title: Some(format!("title of {}", id)),
        authors: Vec::new(),
        description: None,
        links: Vec::new(),
        icon: None,
        logo: None,
        updated: None,
        published: None,
        tags: Vec::new(),
        entries: Vec::new(),
    }
}

fn mk_entry(id: &str, feed: &str, published: Option<&str>) -> Entry {
    Entry {
        id: id.to_string(),
        feed: feed.to_string(),
        title: None,
        authors: Vec::new(),
        summary: None,
        content: None,
        links: Vec::new(),
        updated: None,
        published: published.map(|p| p.to_string()),
        status: Status(0),
    }
}

#[test]
fn status_bitset_set_get_clear() {
    let mut s = Status(0);
    assert!(!s.get(READ_BIT));
    s.set(READ_BIT);
    assert!(s.get(READ_BIT));
    assert!(!s.get(STARRED_BIT));
    s.set(READ_BIT);
    assert_eq!(s.0, 1);
    s.set(STARRED_BIT);
    assert_eq!(s.0, 3);
    s.clear(READ_BIT);
    assert!(!s.get(READ_BIT));
    assert!(s.get(STARRED_BIT));
}

#[test]
fn status_reserved_bits_survive() {
    let mut s = Status(0b1000_0000);
    s.set(READ_BIT);
    s.clear(STARRED_BIT);
    s.clear(READ_BIT);
    assert_eq!(s.0, 0b1000_0000);
}

#[test]
fn empty_feed_then_two_dated_entries() {
    let mut st = Storage::new();
    st.upsert_feed(&mk_feed("F1"));
    let feeds = st.get_feeds();
    assert_eq!(feeds.len(), 1);
    assert_eq!(feeds[0].id, "F1");
    assert_eq!(feeds[0].entries.len(), 0);
    assert_eq!(feeds[0].tags.len(), 0);

    st.upsert_entry(&mk_entry("E1", "F1", Some("2024-01-01"))).unwrap();
    st.upsert_entry(&mk_entry("E2", "F1", Some("2024-02-01"))).unwrap();
    let feeds = st.get_feeds();
    assert_eq!(feeds.len(), 1);
    assert_eq!(feeds[0].entries.len(), 2);
    assert_eq!(feeds[0].entries[0].id, "E2");
    assert_eq!(feeds[0].entries[1].id, "E1");
}

#[test]
fn published_tie_breaks_by_id_ascending() {
    let mut st = Storage::new();
    st.upsert_feed(&mk_feed("F1"));
    st.upsert_entry(&mk_entry("b", "F1", Some("2024-01-01"))).unwrap();
    st.upsert_entry(&mk_entry("a", "F1", Some("2024-01-01"))).unwrap();
    let feeds = st.get_feeds();
    assert_eq!(feeds[0].entries[0].id, "a");
    assert_eq!(feeds[0].entries[1].id, "b");
}

#[test]
fn undated_entries_keep_insertion_order() {
    let mut st = Storage::new();
    st.upsert_feed(&mk_feed("F1"));
    st.upsert_entry(&mk_entry("A", "F1", None)).unwrap();
    st.upsert_entry(&mk_entry("B", "F1", None)).unwrap();
    st.upsert_entry(&mk_entry("C", "F1", None)).unwrap();
    let once = st.get_feeds();
    let twice = st.get_feeds();
    assert_eq!(once[0].entries[0].id, "A");
    assert_eq!(once[0].entries[1].id, "B");
    assert_eq!(once[0].entries[2].id, "C");
    assert_eq!(twice[0].entries[0].id, "A");
    assert_eq!(twice[0].entries[1].id, "B");
    assert_eq!(twice[0].entries[2].id, "C");
}

#[test]
fn dated_before_undated() {
    let mut st = Storage::new();
    st.upsert_feed(&mk_feed("F1"));
    st.upsert_entry(&mk_entry("u", "F1", None)).unwrap();
    st.upsert_entry(&mk_entry("d", "F1", Some("2020-05-05"))).unwrap();
    let feeds = st.get_feeds();
    assert_eq!(feeds[0].entries[0].id, "d");
    assert_eq!(feeds[0].entries[1].id, "u");
}

#[test]
fn reingestion_does_not_clobber_status() {
    let mut st = Storage::new();
    st.upsert_feed(&mk_feed("F1"));
    st.upsert_entry(&mk_entry("E1", "F1", Some("2024-01-01"))).unwrap();
    st.set_entry_status(&"E1".to_string(), &"F1".to_string(), STARRED_BIT, true).unwrap();

    let mut fresh = mk_entry("E1", "F1", Some("2024-01-02"));
    fresh.title = None;
    st.upsert_entry(&fresh).unwrap();

    let feed = st.get_feed(&"F1".to_string()).unwrap();
    assert_eq!(feed.entries.len(), 1);
    assert_eq!(feed.entries[0].published, Some("2024-01-02".to_string()));
    assert!(feed.entries[0].status.get(STARRED_BIT));
}

#[test]
fn upsert_entry_updates_instead_of_duplicating() {
    let mut st = Storage::new();
    st.upsert_feed(&mk_feed("F1"));
    st.upsert_entry(&mk_entry("E1", "F1", None)).unwrap();
    st.upsert_entry(&mk_entry("E1", "F1", Some("2024-03-01"))).unwrap();
    let feed = st.get_feed(&"F1".to_string()).unwrap();
    assert_eq!(feed.entries.len(), 1);
    assert_eq!(feed.entries[0].published, Some("2024-03-01".to_string()));
}

#[test]
fn same_entry_id_under_two_feeds_does_not_collide() {
    let mut st = Storage::new();
    st.upsert_feed(&mk_feed("F1"));
    st.upsert_feed(&mk_feed("F2"));
    st.upsert_entry(&mk_entry("E", "F1", None)).unwrap();
    st.upsert_entry(&mk_entry("E", "F2", None)).unwrap();
    let f1 = st.get_feed(&"F1".to_string()).unwrap();
    let f2 = st.get_feed(&"F2".to_string()).unwrap();
    assert_eq!(f1.entries.len(), 1);
    assert_eq!(f2.entries.len(), 1);
}

#[test]
fn entry_for_unknown_feed_is_a_constraint_violation() {
    let mut st = Storage::new();
    let r = st.upsert_entry(&mk_entry("E1", "nope", None));
    assert_eq!(r, Err(StorageError::ConstraintViolation));
    assert_eq!(st.get_feeds().len(), 0);
}

#[test]
fn status_of_unknown_entry_is_not_found() {
    let mut st = Storage::new();
    st.upsert_feed(&mk_feed("F1"));
    let r = st.set_entry_status(&"missing".to_string(), &"F1".to_string(), READ_BIT, true);
    assert_eq!(r, Err(StorageError::NotFound));
}

#[test]
fn tagging_is_idempotent() {
    let mut st = Storage::new();
    st.upsert_feed(&mk_feed("F1"));
    st.add_tag(&"F1".to_string(), &"news".to_string()).unwrap();
    st.add_tag(&"F1".to_string(), &"news".to_string()).unwrap();
    let feed = st.get_feed(&"F1".to_string()).unwrap();
    assert_eq!(feed.tags, vec!["news".to_string()]);
}

#[test]
fn removing_an_absent_tag_is_a_no_op() {
    let mut st = Storage::new();
    st.upsert_feed(&mk_feed("F1"));
    st.add_tag(&"F1".to_string(), &"news".to_string()).unwrap();
    st.remove_tag(&"F1".to_string(), &"absent".to_string());
    let feed = st.get_feed(&"F1".to_string()).unwrap();
    assert_eq!(feed.tags, vec!["news".to_string()]);
    st.remove_tag(&"F1".to_string(), &"news".to_string());
    let feed = st.get_feed(&"F1".to_string()).unwrap();
    assert_eq!(feed.tags.len(), 0);
}

#[test]
fn tag_for_unknown_feed_is_a_constraint_violation() {
    let mut st = Storage::new();
    let r = st.add_tag(&"nope".to_string(), &"news".to_string());
    assert_eq!(r, Err(StorageError::ConstraintViolation));
}

#[test]
fn cascade_delete_removes_entries_and_tags() {
    let mut st = Storage::new();
    st.upsert_feed(&mk_feed("F1"));
    st.upsert_feed(&mk_feed("F2"));
    st.upsert_entry(&mk_entry("E1", "F1", None)).unwrap();
    st.upsert_entry(&mk_entry("E2", "F2", None)).unwrap();
    st.add_tag(&"F1".to_string(), &"news".to_string()).unwrap();
    st.add_tag(&"F2".to_string(), &"news".to_string()).unwrap();

    st.delete_feed(&"F1".to_string());

    assert!(st.get_feed(&"F1".to_string()).is_none());
    let feeds = st.get_feeds();
    assert_eq!(feeds.len(), 1);
    assert_eq!(feeds[0].id, "F2");
    assert_eq!(feeds[0].entries.len(), 1);
    assert_eq!(feeds[0].tags, vec!["news".to_string()]);

    st.delete_feed(&"missing".to_string());
    assert_eq!(st.get_feeds().len(), 1);
}

#[test]
fn assembly_attributes_entries_and_tags_to_their_own_feed() {
    let mut st = Storage::new();
    st.upsert_feed(&mk_feed("F1"));
    st.upsert_feed(&mk_feed("F2"));
    st.upsert_entry(&mk_entry("a1", "F1", Some("2024-01-01"))).unwrap();
    st.upsert_entry(&mk_entry("a2", "F1", Some("2024-02-01"))).unwrap();
    st.upsert_entry(&mk_entry("b1", "F2", Some("2024-01-15"))).unwrap();
    st.upsert_entry(&mk_entry("b2", "F2", Some("2024-02-15"))).unwrap();
    st.add_tag(&"F1".to_string(), &"shared".to_string()).unwrap();
    st.add_tag(&"F2".to_string(), &"shared".to_string()).unwrap();

    let feeds = st.get_feeds();
    assert_eq!(feeds.len(), 2);
    let f1 = &feeds[0];
    let f2 = &feeds[1];
    assert_eq!(f1.id, "F1");
    assert_eq!(f2.id, "F2");
    assert_eq!(f1.entries.len(), 2);
    assert_eq!(f1.entries[0].id, "a2");
    assert_eq!(f1.entries[1].id, "a1");
    assert_eq!(f2.entries.len(), 2);
    assert_eq!(f2.entries[0].id, "b2");
    assert_eq!(f2.entries[1].id, "b1");
    assert_eq!(f1.tags, vec!["shared".to_string()]);
    assert_eq!(f2.tags, vec!["shared".to_string()]);
}

#[test]
fn upsert_feed_updates_columns_and_keeps_children() {
    let mut st = Storage::new();
    st.upsert_feed(&mk_feed("F1"));
    st.upsert_entry(&mk_entry("E1", "F1", None)).unwrap();
    st.add_tag(&"F1".to_string(), &"news".to_string()).unwrap();

    let mut f = mk_feed("F1");
    f.title = Some("renamed".to_string());
    st.upsert_feed(&f);

    let feeds = st.get_feeds();
    assert_eq!(feeds.len(), 1);
    assert_eq!(feeds[0].title, Some("renamed".to_string()));
    assert_eq!(feeds[0].entries.len(), 1);
    assert_eq!(feeds[0].tags, vec!["news".to_string()]);
}

#[test]
fn get_feed_is_absence_for_unknown_id() {
    let st = Storage::new();
    assert!(st.get_feed(&"nope".to_string()).is_none());
}

#[test]
fn feed_row_that_no_longer_decodes_is_skipped() {
    let mut st = Storage::new();
    st.upsert_feed(&mk_feed("good"));
    st.feeds.push(yafr::store::FeedRow {
        id: "bad".to_string(),
        title: None,
        authors: "not a stored column".to_string(),
        description: None,
        links: String::new(),
        icon: None,
        logo: None,
        updated: None,
        published: None,
    });
    let feeds = st.get_feeds();
    assert_eq!(feeds.len(), 1);
    assert_eq!(feeds[0].id, "good");
}

#[test]
fn entry_row_that_no_longer_decodes_is_skipped_not_the_feed() {
    let mut st = Storage::new();
    st.upsert_feed(&mk_feed("F1"));
    st.upsert_entry(&mk_entry("ok", "F1", None)).unwrap();
    st.entries.push(yafr::store::EntryRow {
        id: "broken".to_string(),
        feed: "F1".to_string(),
        title: "m=text/plain".to_string(),
        authors: String::new(),
        summary: String::new(),
        content: String::new(),
        links: String::new(),
        updated: None,
        published: None,
        status: 0,
    });
    let feeds = st.get_feeds();
    assert_eq!(feeds.len(), 1);
    assert_eq!(feeds[0].entries.len(), 1);
    assert_eq!(feeds[0].entries[0].id, "ok");
}
