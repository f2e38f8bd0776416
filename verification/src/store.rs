//! The repository: the three normalized tables — feeds, entries, tag
//! associations — their invariants, the write operations, and the assembly
//! that turns rows back into hierarchical feeds.
//!
//! Feed and entry identifiers are natural string keys, compared byte for
//! byte. Re-ingesting an entry updates its syndicated columns and never
//! touches its status; status mutation is its own read-modify-write path.

use crate::codec::enc_links;
use crate::codec::enc_opt_content;
use crate::codec::enc_opt_text;
use crate::codec::enc_persons;
use crate::codec::encode_links;
use crate::codec::encode_opt_content;
use crate::codec::encode_opt_text;
use crate::codec::encode_persons;
use crate::codec::parse_links;
use crate::codec::parse_opt_content;
use crate::codec::parse_opt_text;
use crate::codec::parse_persons;
use crate::codec::decode_links;
use crate::codec::decode_opt_content;
use crate::codec::decode_opt_text;
use crate::codec::decode_persons;
use crate::status::Status;
use crate::types::opt_view;
use vstd::multiset::Multiset;
use vstd::seq_lib::lemma_multiset_commutative;
use vstd::string::StrSliceExecFns;
use crate::types::Entry;
use crate::types::EntryV;
use crate::types::Feed;
use crate::types::FeedV;
use vstd::prelude::*;

verus! {

/// A write that the schema refuses.
#[derive(Clone, Copy, PartialEq, Eq, Structural, Debug)]
pub enum StorageError {
    /// The addressed feed or entry does not exist.
    NotFound,
    /// The write would break a key: an entry or tag naming an unknown feed.
    ConstraintViolation,
}

/// One stored feed row; nested objects held in their encoded columns.
pub struct FeedRow {
    pub id: String,
    pub title: Option<String>,
    pub authors: String,
    pub description: Option<String>,
    pub links: String,
    pub icon: Option<String>,
    pub logo: Option<String>,
    pub updated: Option<String>,
    pub published: Option<String>,
}

pub ghost struct FeedRowV {
    pub id: Seq<char>,
    pub title: Option<Seq<char>>,
    pub authors: Seq<char>,
    pub description: Option<Seq<char>>,
    pub links: Seq<char>,
    pub icon: Option<Seq<char>>,
    pub logo: Option<Seq<char>>,
    pub updated: Option<Seq<char>>,
    pub published: Option<Seq<char>>,
}

impl View for FeedRow {
    type V = FeedRowV;

    open spec fn view(&self) -> FeedRowV {
        FeedRowV {
            id: self.id@,
            title: opt_view(self.title),
            authors: self.authors@,
            description: opt_view(self.description),
            links: self.links@,
            icon: opt_view(self.icon),
            logo: opt_view(self.logo),
            updated: opt_view(self.updated),
            published: opt_view(self.published),
        }
    }
}

/// One stored entry row.
pub struct EntryRow {
    pub id: String,
    pub feed: String,
    pub title: String,
    pub authors: String,
    pub summary: String,
    pub content: String,
    pub links: String,
    pub updated: Option<String>,
    pub published: Option<String>,
    pub status: u32,
}

pub ghost struct EntryRowV {
    pub id: Seq<char>,
    pub feed: Seq<char>,
    pub title: Seq<char>,
    pub authors: Seq<char>,
    pub summary: Seq<char>,
    pub content: Seq<char>,
    pub links: Seq<char>,
    pub updated: Option<Seq<char>>,
    pub published: Option<Seq<char>>,
    pub status: u32,
}

impl View for EntryRow {
    type V = EntryRowV;

    open spec fn view(&self) -> EntryRowV {
        EntryRowV {
            id: self.id@,
            feed: self.feed@,
            title: self.title@,
            authors: self.authors@,
            summary: self.summary@,
            content: self.content@,
            links: self.links@,
            updated: opt_view(self.updated),
            published: opt_view(self.published),
            status: self.status,
        }
    }
}

/// One tag association row.
pub struct TagRow {
    pub name: String,
    pub feed: String,
}

pub ghost struct TagRowV {
    pub name: Seq<char>,
    pub feed: Seq<char>,
}

impl View for TagRow {
    type V = TagRowV;

    open spec fn view(&self) -> TagRowV {
        TagRowV { name: self.name@, feed: self.feed@ }
    }
}

/// The whole persisted state: the three tables, rows in insertion order.
pub struct Storage {
    pub feeds: Vec<FeedRow>,
    pub entries: Vec<EntryRow>,
    pub tags: Vec<TagRow>,
}

pub ghost struct StorageV {
    pub feeds: Seq<FeedRowV>,
    pub entries: Seq<EntryRowV>,
    pub tags: Seq<TagRowV>,
}

impl View for Storage {
    type V = StorageV;

    open spec fn view(&self) -> StorageV {
        StorageV {
            feeds: self.feeds@.map_values(|r: FeedRow| r@),
            entries: self.entries@.map_values(|r: EntryRow| r@),
            tags: self.tags@.map_values(|r: TagRow| r@),
        }
    }
}

/// Whether some feed row carries this id.
pub open spec fn has_feed(feeds: Seq<FeedRowV>, id: Seq<char>) -> bool {
    exists|i: int| 0 <= i < feeds.len() && (#[trigger] feeds[i]).id == id
}

/// First position of the feed row with this id, or -1.
pub open spec fn feed_at(feeds: Seq<FeedRowV>, id: Seq<char>) -> int
    decreases feeds.len(),
{
    if feeds.len() == 0 {
        -1
    } else if feeds[0].id == id {
        0
    } else {
        let r = feed_at(feeds.skip(1), id);
        if r == -1 {
            -1
        } else {
            r + 1
        }
    }
}

pub proof fn lemma_feed_at(feeds: Seq<FeedRowV>, id: Seq<char>)
    ensures
        feed_at(feeds, id) == -1 ==> (forall|i: int|
            0 <= i < feeds.len() ==> (#[trigger] feeds[i]).id != id),
        feed_at(feeds, id) != -1 ==> 0 <= feed_at(feeds, id) < feeds.len() && feeds[feed_at(
            feeds,
            id,
        )].id == id && (forall|j: int| 0 <= j < feed_at(feeds, id) ==> (#[trigger] feeds[j]).id != id),
        (feed_at(feeds, id) != -1) == has_feed(feeds, id),
    decreases feeds.len(),
{
    if feeds.len() > 0 && feeds[0].id != id {
        lemma_feed_at(feeds.skip(1), id);
        assert(forall|i: int| 1 <= i < feeds.len() ==> feeds[i] == (#[trigger] feeds.skip(1)[i - 1]));
        if feed_at(feeds.skip(1), id) != -1 {
            assert forall|j: int| 0 <= j < feed_at(feeds, id) implies (#[trigger] feeds[j]).id
                != id by {
                if j >= 1 {
                    assert(feeds[j] == feeds.skip(1)[j - 1]);
                    assert(feeds.skip(1)[j - 1].id != id);
                }
            }
            assert(has_feed(feeds, id));
        } else {
            if has_feed(feeds, id) {
                let w = choose|i: int| 0 <= i < feeds.len() && (#[trigger] feeds[i]).id == id;
                assert(feeds.skip(1)[w - 1].id == id);
            }
        }
    }
}

/// Whether some entry row carries this key pair.
pub open spec fn has_entry(entries: Seq<EntryRowV>, id: Seq<char>, feed: Seq<char>) -> bool {
    exists|i: int|
        0 <= i < entries.len() && (#[trigger] entries[i]).id == id && entries[i].feed == feed
}

/// First position of the entry row with this key pair, or -1.
pub open spec fn entry_at(entries: Seq<EntryRowV>, id: Seq<char>, feed: Seq<char>) -> int
    decreases entries.len(),
{
    if entries.len() == 0 {
        -1
    } else if entries[0].id == id && entries[0].feed == feed {
        0
    } else {
        let r = entry_at(entries.skip(1), id, feed);
        if r == -1 {
            -1
        } else {
            r + 1
        }
    }
}

pub proof fn lemma_entry_at(entries: Seq<EntryRowV>, id: Seq<char>, feed: Seq<char>)
    ensures
        entry_at(entries, id, feed) == -1 ==> (forall|i: int|
            0 <= i < entries.len() ==> !((#[trigger] entries[i]).id == id && entries[i].feed
                == feed)),
        entry_at(entries, id, feed) != -1 ==> 0 <= entry_at(entries, id, feed) < entries.len()
            && entries[entry_at(entries, id, feed)].id == id && entries[entry_at(
            entries,
            id,
            feed,
        )].feed == feed && (forall|j: int|
            0 <= j < entry_at(entries, id, feed) ==> !((#[trigger] entries[j]).id == id
                && entries[j].feed == feed)),
        (entry_at(entries, id, feed) != -1) == has_entry(entries, id, feed),
    decreases entries.len(),
{
    if entries.len() > 0 && !(entries[0].id == id && entries[0].feed == feed) {
        lemma_entry_at(entries.skip(1), id, feed);
        assert(forall|i: int|
            1 <= i < entries.len() ==> entries[i] == (#[trigger] entries.skip(1)[i - 1]));
        if entry_at(entries.skip(1), id, feed) != -1 {
            assert forall|j: int| 0 <= j < entry_at(entries, id, feed) implies !((
            #[trigger] entries[j]).id == id && entries[j].feed == feed) by {
                if j >= 1 {
                    assert(entries[j] == entries.skip(1)[j - 1]);
                    assert(!(entries.skip(1)[j - 1].id == id && entries.skip(1)[j - 1].feed
                        == feed));
                }
            }
            assert(has_entry(entries, id, feed));
        } else {
            if has_entry(entries, id, feed) {
                let w = choose|i: int|
                    0 <= i < entries.len() && (#[trigger] entries[i]).id == id && entries[i].feed
                        == feed;
                assert(entries.skip(1)[w - 1].id == id);
            }
        }
    }
}

/// Whether some tag row carries this association.
pub open spec fn has_tag(tags: Seq<TagRowV>, name: Seq<char>, feed: Seq<char>) -> bool {
    exists|i: int| 0 <= i < tags.len() && (#[trigger] tags[i]).name == name && tags[i].feed == feed
}

/// First position of the tag row with this association, or -1.
pub open spec fn tag_at(tags: Seq<TagRowV>, name: Seq<char>, feed: Seq<char>) -> int
    decreases tags.len(),
{
    if tags.len() == 0 {
        -1
    } else if tags[0].name == name && tags[0].feed == feed {
        0
    } else {
        let r = tag_at(tags.skip(1), name, feed);
        if r == -1 {
            -1
        } else {
            r + 1
        }
    }
}

pub proof fn lemma_tag_at(tags: Seq<TagRowV>, name: Seq<char>, feed: Seq<char>)
    ensures
        tag_at(tags, name, feed) == -1 ==> (forall|i: int|
            0 <= i < tags.len() ==> !((#[trigger] tags[i]).name == name && tags[i].feed == feed)),
        tag_at(tags, name, feed) != -1 ==> 0 <= tag_at(tags, name, feed) < tags.len() && tags[tag_at(
            tags,
            name,
            feed,
        )].name == name && tags[tag_at(tags, name, feed)].feed == feed && (forall|j: int|
            0 <= j < tag_at(tags, name, feed) ==> !((#[trigger] tags[j]).name == name
                && tags[j].feed == feed)),
        (tag_at(tags, name, feed) != -1) == has_tag(tags, name, feed),
    decreases tags.len(),
{
    if tags.len() > 0 && !(tags[0].name == name && tags[0].feed == feed) {
        lemma_tag_at(tags.skip(1), name, feed);
        assert(forall|i: int| 1 <= i < tags.len() ==> tags[i] == (#[trigger] tags.skip(1)[i - 1]));
        if tag_at(tags.skip(1), name, feed) != -1 {
            assert forall|j: int| 0 <= j < tag_at(tags, name, feed) implies !((
            #[trigger] tags[j]).name == name && tags[j].feed == feed) by {
                if j >= 1 {
                    assert(tags[j] == tags.skip(1)[j - 1]);
                    assert(!(tags.skip(1)[j - 1].name == name && tags.skip(1)[j - 1].feed
                        == feed));
                }
            }
            assert(has_tag(tags, name, feed));
        } else {
            if has_tag(tags, name, feed) {
                let w = choose|i: int|
                    0 <= i < tags.len() && (#[trigger] tags[i]).name == name && tags[i].feed
                        == feed;
                assert(tags.skip(1)[w - 1].name == name);
            }
        }
    }
}

impl StorageV {
    /// The schema's keys: feed ids unique; one row per `(id, feed)` entry
    /// pair and per `(name, feed)` tag pair; every entry and tag names an
    /// existing feed — no orphans.
    pub open spec fn wf(self) -> bool {
        &&& (forall|i: int, j: int|
            0 <= i < j < self.feeds.len() ==> (#[trigger] self.feeds[i]).id
                != (#[trigger] self.feeds[j]).id)
        &&& (forall|i: int, j: int|
            0 <= i < j < self.entries.len() ==> !((#[trigger] self.entries[i]).id
                == (#[trigger] self.entries[j]).id && self.entries[i].feed
                == self.entries[j].feed))
        &&& (forall|i: int, j: int|
            0 <= i < j < self.tags.len() ==> !((#[trigger] self.tags[i]).name
                == (#[trigger] self.tags[j]).name && self.tags[i].feed == self.tags[j].feed))
        &&& (forall|i: int|
            0 <= i < self.entries.len() ==> has_feed(self.feeds, (#[trigger] self.entries[i]).feed))
        &&& (forall|i: int|
            0 <= i < self.tags.len() ==> has_feed(self.feeds, (#[trigger] self.tags[i]).feed))
    }
}

/// The row a feed object is stored as. Tags and entries live in their own
/// tables; a feed row never embeds them.
pub open spec fn feed_row_v(f: FeedV) -> FeedRowV {
    FeedRowV {
        id: f.id,
        title: f.title,
        authors: enc_persons(f.authors),
        description: f.description,
        links: enc_links(f.links),
        icon: f.icon,
        logo: f.logo,
        updated: f.updated,
        published: f.published,
    }
}

/// The row an entry object is stored as, with the status column it is
/// given: 0 on first ingestion, the row's old status on re-ingestion.
pub open spec fn entry_row_v(e: EntryV, status: u32) -> EntryRowV {
    EntryRowV {
        id: e.id,
        feed: e.feed,
        title: enc_opt_text(e.title),
        authors: enc_persons(e.authors),
        summary: enc_opt_text(e.summary),
        content: enc_opt_content(e.content),
        links: enc_links(e.links),
        updated: e.updated,
        published: e.published,
        status: status,
    }
}

fn clone_opt(o: &Option<String>) -> (r: Option<String>)
    ensures
        r == *o,
{
    match o {
        Some(s) => Some(s.clone()),
        None => None,
    }
}

fn feed_row_of(f: &Feed) -> (r: FeedRow)
    ensures
        r@ == feed_row_v(f@),
{
    FeedRow {
        id: f.id.clone(),
        title: clone_opt(&f.title),
        authors: encode_persons(&f.authors),
        description: clone_opt(&f.description),
        links: encode_links(&f.links),
        icon: clone_opt(&f.icon),
        logo: clone_opt(&f.logo),
        updated: clone_opt(&f.updated),
        published: clone_opt(&f.published),
    }
}

fn entry_row_of(e: &Entry, status: u32) -> (r: EntryRow)
    ensures
        r@ == entry_row_v(e@, status),
{
    EntryRow {
        id: e.id.clone(),
        feed: e.feed.clone(),
        title: encode_opt_text(&e.title),
        authors: encode_persons(&e.authors),
        summary: encode_opt_text(&e.summary),
        content: encode_opt_content(&e.content),
        links: encode_links(&e.links),
        updated: clone_opt(&e.updated),
        published: clone_opt(&e.published),
        status: status,
    }
}

impl Storage {
    /// An empty store.
    pub fn new() -> (r: Storage)
        ensures
            r@.feeds.len() == 0,
            r@.entries.len() == 0,
            r@.tags.len() == 0,
            r@.wf(),
    {
        let r = Storage { feeds: Vec::new(), entries: Vec::new(), tags: Vec::new() };
        proof {
            assert(r@.feeds =~= Seq::<FeedRowV>::empty());
            assert(r@.entries =~= Seq::<EntryRowV>::empty());
            assert(r@.tags =~= Seq::<TagRowV>::empty());
        }
        r
    }

    fn find_feed(&self, id: &String) -> (r: Option<usize>)
        ensures
            match r {
                Some(j) => feed_at(self@.feeds, id@) == j as int,
                None => feed_at(self@.feeds, id@) == -1,
            },
    {
        let mut j: usize = 0;
        while j < self.feeds.len()
            invariant
                j <= self.feeds.len(),
                self@.feeds.len() == self.feeds@.len(),
                forall|k: int| 0 <= k < j ==> (#[trigger] self@.feeds[k]).id != id@,
            decreases self.feeds.len() - j,
        {
            if self.feeds[j].id == *id {
                proof {
                    lemma_feed_at(self@.feeds, id@);
                    let fa = feed_at(self@.feeds, id@);
                    assert(self@.feeds[j as int].id == id@);
                    assert(has_feed(self@.feeds, id@));
                    if fa < j as int {
                        assert(self@.feeds[fa].id == id@);
                    }
                }
                return Some(j);
            }
            j = j + 1;
        }
        proof {
            lemma_feed_at(self@.feeds, id@);
            let fa = feed_at(self@.feeds, id@);
            if fa != -1 {
                assert(self@.feeds[fa].id == id@);
            }
        }
        None
    }

    fn find_entry(&self, id: &String, feed: &String) -> (r: Option<usize>)
        ensures
            match r {
                Some(j) => entry_at(self@.entries, id@, feed@) == j as int,
                None => entry_at(self@.entries, id@, feed@) == -1,
            },
    {
        let mut j: usize = 0;
        while j < self.entries.len()
            invariant
                j <= self.entries.len(),
                self@.entries.len() == self.entries@.len(),
                forall|k: int|
                    0 <= k < j ==> !((#[trigger] self@.entries[k]).id == id@
                        && self@.entries[k].feed == feed@),
            decreases self.entries.len() - j,
        {
            if self.entries[j].id == *id && self.entries[j].feed == *feed {
                proof {
                    lemma_entry_at(self@.entries, id@, feed@);
                    let fa = entry_at(self@.entries, id@, feed@);
                    assert(self@.entries[j as int].id == id@ && self@.entries[j as int].feed
                        == feed@);
                    assert(has_entry(self@.entries, id@, feed@));
                    if fa < j as int {
                        assert(self@.entries[fa].id == id@ && self@.entries[fa].feed == feed@);
                    }
                }
                return Some(j);
            }
            j = j + 1;
        }
        proof {
            lemma_entry_at(self@.entries, id@, feed@);
            let fa = entry_at(self@.entries, id@, feed@);
            if fa != -1 {
                assert(self@.entries[fa].id == id@);
            }
        }
        None
    }

    fn find_tag(&self, name: &String, feed: &String) -> (r: Option<usize>)
        ensures
            match r {
                Some(j) => tag_at(self@.tags, name@, feed@) == j as int,
                None => tag_at(self@.tags, name@, feed@) == -1,
            },
    {
        let mut j: usize = 0;
        while j < self.tags.len()
            invariant
                j <= self.tags.len(),
                self@.tags.len() == self.tags@.len(),
                forall|k: int|
                    0 <= k < j ==> !((#[trigger] self@.tags[k]).name == name@ && self@.tags[k].feed
                        == feed@),
            decreases self.tags.len() - j,
        {
            if self.tags[j].name == *name && self.tags[j].feed == *feed {
                proof {
                    lemma_tag_at(self@.tags, name@, feed@);
                    let fa = tag_at(self@.tags, name@, feed@);
                    assert(self@.tags[j as int].name == name@ && self@.tags[j as int].feed
                        == feed@);
                    assert(has_tag(self@.tags, name@, feed@));
                    if fa < j as int {
                        assert(self@.tags[fa].name == name@ && self@.tags[fa].feed == feed@);
                    }
                }
                return Some(j);
            }
            j = j + 1;
        }
        proof {
            lemma_tag_at(self@.tags, name@, feed@);
            let fa = tag_at(self@.tags, name@, feed@);
            if fa != -1 {
                assert(self@.tags[fa].name == name@);
            }
        }
        None
    }
}

/// The feed rows that survive deleting `id`.
pub open spec fn keep_feeds(feeds: Seq<FeedRowV>, id: Seq<char>) -> Seq<FeedRowV>
    decreases feeds.len(),
{
    if feeds.len() == 0 {
        Seq::empty()
    } else if feeds[0].id != id {
        seq![feeds[0]] + keep_feeds(feeds.skip(1), id)
    } else {
        keep_feeds(feeds.skip(1), id)
    }
}

/// The entry rows that survive deleting the feed `id`.
pub open spec fn keep_entries(entries: Seq<EntryRowV>, id: Seq<char>) -> Seq<EntryRowV>
    decreases entries.len(),
{
    if entries.len() == 0 {
        Seq::empty()
    } else if entries[0].feed != id {
        seq![entries[0]] + keep_entries(entries.skip(1), id)
    } else {
        keep_entries(entries.skip(1), id)
    }
}

/// The tag rows that survive deleting the feed `id`.
pub open spec fn keep_tags(tags: Seq<TagRowV>, id: Seq<char>) -> Seq<TagRowV>
    decreases tags.len(),
{
    if tags.len() == 0 {
        Seq::empty()
    } else if tags[0].feed != id {
        seq![tags[0]] + keep_tags(tags.skip(1), id)
    } else {
        keep_tags(tags.skip(1), id)
    }
}

/// What survives deleting `id`: exactly the rows of other feeds, in order,
/// and nothing that names `id`.
pub proof fn lemma_keep_feeds(feeds: Seq<FeedRowV>, id: Seq<char>)
    ensures
        forall|i: int|
            0 <= i < keep_feeds(feeds, id).len() ==> (#[trigger] keep_feeds(feeds, id)[i]).id != id,
        forall|i: int|
            0 <= i < keep_feeds(feeds, id).len() ==> feeds.contains(keep_feeds(feeds, id)[i]),
        forall|i: int|
            0 <= i < feeds.len() && (#[trigger] feeds[i]).id != id ==> keep_feeds(
                feeds,
                id,
            ).contains(feeds[i]),
    decreases feeds.len(),
{
    if feeds.len() > 0 {
        lemma_keep_feeds(feeds.skip(1), id);
        let kf = keep_feeds(feeds, id);
        let ks = keep_feeds(feeds.skip(1), id);
        assert(forall|i: int| 1 <= i < feeds.len() ==> feeds[i] == (#[trigger] feeds.skip(1)[i - 1]));
        assert forall|i: int| 0 <= i < kf.len() implies feeds.contains(kf[i]) by {
            if feeds[0].id != id && i == 0 {
                assert(kf[0] == feeds[0]);
            } else {
                let j = if feeds[0].id != id {
                    i - 1
                } else {
                    i
                };
                assert(kf[i] == ks[j]);
                assert(feeds.skip(1).contains(ks[j]));
                let w = choose|w: int|
                    0 <= w < feeds.skip(1).len() && feeds.skip(1)[w] == ks[j];
                assert(feeds[w + 1] == ks[j]);
            }
        }
        assert forall|i: int|
            0 <= i < feeds.len() && (#[trigger] feeds[i]).id != id implies kf.contains(
            feeds[i],
        ) by {
            if i == 0 {
                assert(kf[0] == feeds[0]);
            } else {
                assert(feeds.skip(1)[i - 1] == feeds[i]);
                assert(ks.contains(feeds[i]));
                let w = choose|w: int| 0 <= w < ks.len() && ks[w] == feeds[i];
                if feeds[0].id != id {
                    assert(kf[w + 1] == ks[w]);
                } else {
                    assert(kf[w] == ks[w]);
                }
            }
        }
    }
}

pub proof fn lemma_keep_entries(entries: Seq<EntryRowV>, id: Seq<char>)
    ensures
        forall|i: int|
            0 <= i < keep_entries(entries, id).len() ==> (#[trigger] keep_entries(entries, id)[i]).feed
                != id,
        forall|i: int|
            0 <= i < keep_entries(entries, id).len() ==> entries.contains(
                keep_entries(entries, id)[i],
            ),
    decreases entries.len(),
{
    if entries.len() > 0 {
        lemma_keep_entries(entries.skip(1), id);
        let kf = keep_entries(entries, id);
        let ks = keep_entries(entries.skip(1), id);
        assert(forall|i: int|
            1 <= i < entries.len() ==> entries[i] == (#[trigger] entries.skip(1)[i - 1]));
        assert forall|i: int| 0 <= i < kf.len() implies entries.contains(kf[i]) by {
            if entries[0].feed != id && i == 0 {
                assert(kf[0] == entries[0]);
            } else {
                let j = if entries[0].feed != id {
                    i - 1
                } else {
                    i
                };
                assert(kf[i] == ks[j]);
                assert(entries.skip(1).contains(ks[j]));
                let w = choose|w: int|
                    0 <= w < entries.skip(1).len() && entries.skip(1)[w] == ks[j];
                assert(entries[w + 1] == ks[j]);
            }
        }
    }
}

pub proof fn lemma_keep_tags(tags: Seq<TagRowV>, id: Seq<char>)
    ensures
        forall|i: int|
            0 <= i < keep_tags(tags, id).len() ==> (#[trigger] keep_tags(tags, id)[i]).feed != id,
        forall|i: int|
            0 <= i < keep_tags(tags, id).len() ==> tags.contains(keep_tags(tags, id)[i]),
    decreases tags.len(),
{
    if tags.len() > 0 {
        lemma_keep_tags(tags.skip(1), id);
        let kf = keep_tags(tags, id);
        let ks = keep_tags(tags.skip(1), id);
        assert(forall|i: int| 1 <= i < tags.len() ==> tags[i] == (#[trigger] tags.skip(1)[i - 1]));
        assert forall|i: int| 0 <= i < kf.len() implies tags.contains(kf[i]) by {
            if tags[0].feed != id && i == 0 {
                assert(kf[0] == tags[0]);
            } else {
                let j = if tags[0].feed != id {
                    i - 1
                } else {
                    i
                };
                assert(kf[i] == ks[j]);
                assert(tags.skip(1).contains(ks[j]));
                let w = choose|w: int| 0 <= w < tags.skip(1).len() && tags.skip(1)[w] == ks[j];
                assert(tags[w + 1] == ks[j]);
            }
        }
    }
}

fn clone_feed_row(r: &FeedRow) -> (c: FeedRow)
    ensures
        c@ == r@,
{
    FeedRow {
        id: r.id.clone(),
        title: clone_opt(&r.title),
        authors: r.authors.clone(),
        description: clone_opt(&r.description),
        links: r.links.clone(),
        icon: clone_opt(&r.icon),
        logo: clone_opt(&r.logo),
        updated: clone_opt(&r.updated),
        published: clone_opt(&r.published),
    }
}

fn clone_entry_row(r: &EntryRow) -> (c: EntryRow)
    ensures
        c@ == r@,
{
    EntryRow {
        id: r.id.clone(),
        feed: r.feed.clone(),
        title: r.title.clone(),
        authors: r.authors.clone(),
        summary: r.summary.clone(),
        content: r.content.clone(),
        links: r.links.clone(),
        updated: clone_opt(&r.updated),
        published: clone_opt(&r.published),
        status: r.status,
    }
}

fn keep_feeds_exec(v: &Vec<FeedRow>, id: &String, i: usize) -> (r: Vec<FeedRow>)
    requires
        i <= v.len(),
    ensures
        r@.map_values(|x: FeedRow| x@) == keep_feeds(
            v@.map_values(|x: FeedRow| x@).skip(i as int),
            id@,
        ),
    decreases v.len() - i,
{
    let ghost m = v@.map_values(|x: FeedRow| x@);
    if i == v.len() {
        let r: Vec<FeedRow> = Vec::new();
        proof {
            assert(m.skip(i as int) =~= Seq::<FeedRowV>::empty());
            assert(r@.map_values(|x: FeedRow| x@) =~= Seq::<FeedRowV>::empty());
        }
        r
    } else {
        let mut rest = keep_feeds_exec(v, id, i + 1);
        proof {
            assert(m.skip(i as int)[0] == m[i as int]);
            assert(m.skip(i as int).skip(1) =~= m.skip(i as int + 1));
            assert(m[i as int] == v@[i as int]@);
        }
        if !(v[i].id == *id) {
            let ghost old_rest = rest@;
            rest.insert(0, clone_feed_row(&v[i]));
            proof {
                assert(rest@.map_values(|x: FeedRow| x@) =~= seq![v@[i as int]@] + old_rest.map_values(
                    |x: FeedRow| x@,
                ));
            }
        }
        rest
    }
}

fn keep_entries_exec(v: &Vec<EntryRow>, id: &String, i: usize) -> (r: Vec<EntryRow>)
    requires
        i <= v.len(),
    ensures
        r@.map_values(|x: EntryRow| x@) == keep_entries(
            v@.map_values(|x: EntryRow| x@).skip(i as int),
            id@,
        ),
    decreases v.len() - i,
{
    let ghost m = v@.map_values(|x: EntryRow| x@);
    if i == v.len() {
        let r: Vec<EntryRow> = Vec::new();
        proof {
            assert(m.skip(i as int) =~= Seq::<EntryRowV>::empty());
            assert(r@.map_values(|x: EntryRow| x@) =~= Seq::<EntryRowV>::empty());
        }
        r
    } else {
        let mut rest = keep_entries_exec(v, id, i + 1);
        proof {
            assert(m.skip(i as int)[0] == m[i as int]);
            assert(m.skip(i as int).skip(1) =~= m.skip(i as int + 1));
            assert(m[i as int] == v@[i as int]@);
        }
        if !(v[i].feed == *id) {
            let ghost old_rest = rest@;
            rest.insert(0, clone_entry_row(&v[i]));
            proof {
                assert(rest@.map_values(|x: EntryRow| x@) =~= seq![v@[i as int]@]
                    + old_rest.map_values(|x: EntryRow| x@));
            }
        }
        rest
    }
}

fn keep_tags_exec(v: &Vec<TagRow>, id: &String, i: usize) -> (r: Vec<TagRow>)
    requires
        i <= v.len(),
    ensures
        r@.map_values(|x: TagRow| x@) == keep_tags(
            v@.map_values(|x: TagRow| x@).skip(i as int),
            id@,
        ),
    decreases v.len() - i,
{
    let ghost m = v@.map_values(|x: TagRow| x@);
    if i == v.len() {
        let r: Vec<TagRow> = Vec::new();
        proof {
            assert(m.skip(i as int) =~= Seq::<TagRowV>::empty());
            assert(r@.map_values(|x: TagRow| x@) =~= Seq::<TagRowV>::empty());
        }
        r
    } else {
        let mut rest = keep_tags_exec(v, id, i + 1);
        proof {
            assert(m.skip(i as int)[0] == m[i as int]);
            assert(m.skip(i as int).skip(1) =~= m.skip(i as int + 1));
            assert(m[i as int] == v@[i as int]@);
        }
        if !(v[i].feed == *id) {
            let ghost old_rest = rest@;
            rest.insert(0, TagRow { name: v[i].name.clone(), feed: v[i].feed.clone() });
            proof {
                assert(rest@.map_values(|x: TagRow| x@) =~= seq![v@[i as int]@] + old_rest.map_values(
                    |x: TagRow| x@,
                ));
            }
        }
        rest
    }
}

impl Storage {
    /// Inserts the feed, or updates every non-identity column of its row
    /// when the id already exists; never touches entry or tag rows.
    pub fn upsert_feed(&mut self, f: &Feed)
        requires
            old(self)@.wf(),
        ensures
            final(self)@.wf(),
            final(self)@.entries == old(self)@.entries,
            final(self)@.tags == old(self)@.tags,
            ({
                let idx = feed_at(old(self)@.feeds, f@.id);
                if idx >= 0 {
                    final(self)@.feeds == old(self)@.feeds.update(idx, feed_row_v(f@))
                } else {
                    final(self)@.feeds == old(self)@.feeds.push(feed_row_v(f@))
                }
            }),
    {
        proof {
            lemma_feed_at(old(self)@.feeds, f@.id);
        }
        let row = feed_row_of(f);
        let ghost of = old(self)@.feeds;
        match self.find_feed(&f.id) {
            Some(j) => {
                self.feeds.remove(j);
                self.feeds.insert(j, row);
                proof {
                    let nf = self@.feeds;
                    assert(nf =~= of.update(j as int, feed_row_v(f@)));
                    assert(of[j as int].id == f@.id);
                    assert(forall|x: int| 0 <= x < nf.len() ==> (#[trigger] nf[x]).id == of[x].id);
                    lemma_same_ids_wf(old(self)@, self@);
                }
            },
            None => {
                self.feeds.push(row);
                proof {
                    let nf = self@.feeds;
                    assert(nf =~= of.push(feed_row_v(f@)));
                    assert forall|a: int, b: int| 0 <= a < b < nf.len() implies (
                    #[trigger] nf[a]).id != (#[trigger] nf[b]).id by {
                        if b < of.len() {
                        } else {
                            assert(nf[b].id == f@.id);
                            assert(of[a].id != f@.id);
                        }
                    }
                    assert forall|i: int| 0 <= i < self@.entries.len() implies has_feed(
                        nf,
                        (#[trigger] self@.entries[i]).feed,
                    ) by {
                        assert(self@.entries[i] == old(self)@.entries[i]);
                        assert(has_feed(of, old(self)@.entries[i].feed));
                        let w = choose|w: int|
                            0 <= w < of.len() && (#[trigger] of[w]).id == self@.entries[i].feed;
                        assert(nf[w].id == self@.entries[i].feed);
                    }
                    assert forall|i: int| 0 <= i < self@.tags.len() implies has_feed(
                        nf,
                        (#[trigger] self@.tags[i]).feed,
                    ) by {
                        assert(self@.tags[i] == old(self)@.tags[i]);
                        assert(has_feed(of, old(self)@.tags[i].feed));
                        let w = choose|w: int|
                            0 <= w < of.len() && (#[trigger] of[w]).id == self@.tags[i].feed;
                        assert(nf[w].id == self@.tags[i].feed);
                    }
                }
            },
        }
    }

    /// Inserts the entry with a fresh all-clear status, or updates every
    /// syndicated column by `(id, feed)` while leaving the stored status
    /// exactly as it was: re-ingestion never clobbers read or starred bits.
    /// An entry naming an unknown feed is rejected, not coerced.
    pub fn upsert_entry(&mut self, e: &Entry) -> (r: Result<(), StorageError>)
        requires
            old(self)@.wf(),
        ensures
            final(self)@.wf(),
            match r {
                Ok(()) => has_feed(old(self)@.feeds, e@.feed) && final(self)@.feeds == old(
                    self,
                )@.feeds && final(self)@.tags == old(self)@.tags && ({
                    let idx = entry_at(old(self)@.entries, e@.id, e@.feed);
                    if idx >= 0 {
                        final(self)@.entries == old(self)@.entries.update(
                            idx,
                            entry_row_v(e@, old(self)@.entries[idx].status),
                        )
                    } else {
                        final(self)@.entries == old(self)@.entries.push(entry_row_v(e@, 0))
                    }
                }),
                Err(err) => err == StorageError::ConstraintViolation && !has_feed(
                    old(self)@.feeds,
                    e@.feed,
                ) && final(self)@ == old(self)@,
            },
    {
        proof {
            lemma_feed_at(old(self)@.feeds, e@.feed);
            lemma_entry_at(old(self)@.entries, e@.id, e@.feed);
        }
        let ghost oe = old(self)@.entries;
        match self.find_feed(&e.feed) {
            None => Err(StorageError::ConstraintViolation),
            Some(_) => {
                match self.find_entry(&e.id, &e.feed) {
                    Some(j) => {
                        let st = self.entries[j].status;
                        let row = entry_row_of(e, st);
                        self.entries.remove(j);
                        self.entries.insert(j, row);
                        proof {
                            let ne = self@.entries;
                            assert(ne =~= oe.update(j as int, entry_row_v(e@, oe[j as int].status)));
                            assert(oe[j as int].id == e@.id && oe[j as int].feed == e@.feed);
                            assert(forall|x: int|
                                0 <= x < ne.len() ==> (#[trigger] ne[x]).id == oe[x].id
                                    && ne[x].feed == oe[x].feed);
                            lemma_same_keys_wf(old(self)@, self@);
                        }
                        Ok(())
                    },
                    None => {
                        let row = entry_row_of(e, 0);
                        self.entries.push(row);
                        proof {
                            let ne = self@.entries;
                            assert(ne =~= oe.push(entry_row_v(e@, 0)));
                            assert forall|a: int, b: int| 0 <= a < b < ne.len() implies !((
                            #[trigger] ne[a]).id == (#[trigger] ne[b]).id && ne[a].feed
                                == ne[b].feed) by {
                                if b == oe.len() {
                                    assert(!(oe[a].id == e@.id && oe[a].feed == e@.feed));
                                }
                            }
                            assert forall|i: int| 0 <= i < ne.len() implies has_feed(
                                self@.feeds,
                                (#[trigger] ne[i]).feed,
                            ) by {
                                assert(self@.feeds == old(self)@.feeds);
                                if i < oe.len() {
                                    assert(ne[i] == oe[i]);
                                    assert(has_feed(old(self)@.feeds, oe[i].feed));
                                } else {
                                    assert(ne[i].feed == e@.feed);
                                    assert(has_feed(old(self)@.feeds, e@.feed));
                                }
                            }
                            assert(self@.tags == old(self)@.tags);
                            assert(self@.feeds == old(self)@.feeds);
                            assert forall|i: int| 0 <= i < self@.tags.len() implies has_feed(
                                self@.feeds,
                                (#[trigger] self@.tags[i]).feed,
                            ) by {
                                assert(has_feed(old(self)@.feeds, old(self)@.tags[i].feed));
                            }
                            assert forall|a: int, b: int| 0 <= a < b < self@.tags.len() implies !((
                            #[trigger] self@.tags[a]).name == (#[trigger] self@.tags[b]).name
                                && self@.tags[a].feed == self@.tags[b].feed) by {
                                assert(!(old(self)@.tags[a].name == old(self)@.tags[b].name && old(
                                    self,
                                )@.tags[a].feed == old(self)@.tags[b].feed));
                            }
                        }
                        Ok(())
                    },
                }
            },
        }
    }

    /// Read-modify-write of one status bit of one entry, leaving every
    /// other column and every reserved bit untouched.
    pub fn set_entry_status(&mut self, id: &String, feed: &String, bit: u32, value: bool) -> (r:
        Result<(), StorageError>)
        requires
            old(self)@.wf(),
        ensures
            final(self)@.wf(),
            match r {
                Ok(()) => ({
                    let idx = entry_at(old(self)@.entries, id@, feed@);
                    idx >= 0 && final(self)@.feeds == old(self)@.feeds && final(self)@.tags == old(
                        self,
                    )@.tags && final(self)@.entries == old(self)@.entries.update(
                        idx,
                        with_status(
                            old(self)@.entries[idx],
                            if value {
                                old(self)@.entries[idx].status | bit
                            } else {
                                old(self)@.entries[idx].status & !bit
                            },
                        ),
                    )
                }),
                Err(err) => err == StorageError::NotFound && !has_entry(
                    old(self)@.entries,
                    id@,
                    feed@,
                ) && final(self)@ == old(self)@,
            },
    {
        proof {
            lemma_entry_at(old(self)@.entries, id@, feed@);
        }
        let ghost oe = old(self)@.entries;
        match self.find_entry(id, feed) {
            None => Err(StorageError::NotFound),
            Some(j) => {
                let mut row = self.entries.remove(j);
                let mut st = Status(row.status);
                if value {
                    st.set(bit);
                } else {
                    st.clear(bit);
                }
                row.status = st.0;
                self.entries.insert(j, row);
                proof {
                    let ne = self@.entries;
                    assert(ne =~= oe.update(
                        j as int,
                        with_status(
                            oe[j as int],
                            if value {
                                oe[j as int].status | bit
                            } else {
                                oe[j as int].status & !bit
                            },
                        ),
                    ));
                    assert(forall|x: int|
                        0 <= x < ne.len() ==> (#[trigger] ne[x]).id == oe[x].id && ne[x].feed
                            == oe[x].feed);
                    lemma_same_keys_wf(old(self)@, self@);
                }
                Ok(())
            },
        }
    }

    /// Adds a tag association; adding one that exists is a no-op, and a
    /// tag naming an unknown feed is rejected.
    pub fn add_tag(&mut self, feed: &String, name: &String) -> (r: Result<(), StorageError>)
        requires
            old(self)@.wf(),
        ensures
            final(self)@.wf(),
            match r {
                Ok(()) => has_feed(old(self)@.feeds, feed@) && final(self)@.feeds == old(
                    self,
                )@.feeds && final(self)@.entries == old(self)@.entries && (if has_tag(
                    old(self)@.tags,
                    name@,
                    feed@,
                ) {
                    final(self)@.tags == old(self)@.tags
                } else {
                    final(self)@.tags == old(self)@.tags.push(TagRowV { name: name@, feed: feed@ })
                }),
                Err(err) => err == StorageError::ConstraintViolation && !has_feed(
                    old(self)@.feeds,
                    feed@,
                ) && final(self)@ == old(self)@,
            },
    {
        proof {
            lemma_feed_at(old(self)@.feeds, feed@);
            lemma_tag_at(old(self)@.tags, name@, feed@);
        }
        let ghost ot = old(self)@.tags;
        match self.find_feed(feed) {
            None => Err(StorageError::ConstraintViolation),
            Some(_) => {
                match self.find_tag(name, feed) {
                    Some(_) => Ok(()),
                    None => {
                        self.tags.push(TagRow { name: name.clone(), feed: feed.clone() });
                        proof {
                            let nt = self@.tags;
                            assert(nt =~= ot.push(TagRowV { name: name@, feed: feed@ }));
                            assert forall|a: int, b: int| 0 <= a < b < nt.len() implies !((
                            #[trigger] nt[a]).name == (#[trigger] nt[b]).name && nt[a].feed
                                == nt[b].feed) by {
                                if b == ot.len() {
                                    assert(!(ot[a].name == name@ && ot[a].feed == feed@));
                                }
                            }
                            assert forall|i: int| 0 <= i < nt.len() implies has_feed(
                                self@.feeds,
                                (#[trigger] nt[i]).feed,
                            ) by {
                                assert(self@.feeds == old(self)@.feeds);
                                if i < ot.len() {
                                    assert(nt[i] == ot[i]);
                                    assert(has_feed(old(self)@.feeds, ot[i].feed));
                                } else {
                                    assert(nt[i].feed == feed@);
                                    assert(has_feed(old(self)@.feeds, feed@));
                                }
                            }
                        }
                        Ok(())
                    },
                }
            },
        }
    }

    /// Removes a tag association; removing an absent one is a no-op, not
    /// an error.
    pub fn remove_tag(&mut self, feed: &String, name: &String)
        requires
            old(self)@.wf(),
        ensures
            final(self)@.wf(),
            final(self)@.feeds == old(self)@.feeds,
            final(self)@.entries == old(self)@.entries,
            ({
                let idx = tag_at(old(self)@.tags, name@, feed@);
                if idx >= 0 {
                    final(self)@.tags == old(self)@.tags.remove(idx)
                } else {
                    final(self)@.tags == old(self)@.tags
                }
            }),
    {
        proof {
            lemma_tag_at(old(self)@.tags, name@, feed@);
        }
        let ghost ot = old(self)@.tags;
        match self.find_tag(name, feed) {
            None => {},
            Some(j) => {
                self.tags.remove(j);
                proof {
                    let nt = self@.tags;
                    assert(nt =~= ot.remove(j as int));
                    assert forall|a: int, b: int| 0 <= a < b < nt.len() implies !((
                    #[trigger] nt[a]).name == (#[trigger] nt[b]).name && nt[a].feed
                        == nt[b].feed) by {
                        let oa = if a < j as int {
                            a
                        } else {
                            a + 1
                        };
                        let ob = if b < j as int {
                            b
                        } else {
                            b + 1
                        };
                        assert(nt[a] == ot[oa] && nt[b] == ot[ob]);
                    }
                    assert forall|i: int| 0 <= i < nt.len() implies has_feed(
                        self@.feeds,
                        (#[trigger] nt[i]).feed,
                    ) by {
                        let oi = if i < j as int {
                            i
                        } else {
                            i + 1
                        };
                        assert(nt[i] == ot[oi]);
                        assert(has_feed(self@.feeds, ot[oi].feed));
                    }
                }
            },
        }
    }

    /// Deletes a feed and, with it, every entry and tag association that
    /// references it: no orphaned row survives. Deleting an unknown id
    /// leaves everything as it was.
    pub fn delete_feed(&mut self, id: &String)
        requires
            old(self)@.wf(),
        ensures
            final(self)@.wf(),
            final(self)@.feeds == keep_feeds(old(self)@.feeds, id@),
            final(self)@.entries == keep_entries(old(self)@.entries, id@),
            final(self)@.tags == keep_tags(old(self)@.tags, id@),
            forall|i: int|
                0 <= i < final(self)@.entries.len() ==> (#[trigger] final(self)@.entries[i]).feed
                    != id@,
            forall|i: int|
                0 <= i < final(self)@.tags.len() ==> (#[trigger] final(self)@.tags[i]).feed != id@,
    {
        proof {
            lemma_keep_feeds(old(self)@.feeds, id@);
            lemma_keep_entries(old(self)@.entries, id@);
            lemma_keep_tags(old(self)@.tags, id@);
        }
        let ghost os = old(self)@;
        let new_feeds = keep_feeds_exec(&self.feeds, id, 0);
        let new_entries = keep_entries_exec(&self.entries, id, 0);
        let new_tags = keep_tags_exec(&self.tags, id, 0);
        proof {
            assert(self.feeds@.map_values(|x: FeedRow| x@).skip(0) =~= os.feeds);
            assert(self.entries@.map_values(|x: EntryRow| x@).skip(0) =~= os.entries);
            assert(self.tags@.map_values(|x: TagRow| x@).skip(0) =~= os.tags);
        }
        self.feeds = new_feeds;
        self.entries = new_entries;
        self.tags = new_tags;
        proof {
            let ns = self@;
            assert(ns.feeds == keep_feeds(os.feeds, id@));
            assert forall|a: int, b: int| 0 <= a < b < ns.feeds.len() implies (
            #[trigger] ns.feeds[a]).id != (#[trigger] ns.feeds[b]).id by {
                lemma_keep_unique_feeds(os.feeds, id@, a, b);
            }
            assert forall|a: int, b: int| 0 <= a < b < ns.entries.len() implies !((
            #[trigger] ns.entries[a]).id == (#[trigger] ns.entries[b]).id && ns.entries[a].feed
                == ns.entries[b].feed) by {
                lemma_keep_unique_entries(os.entries, id@, a, b);
            }
            assert forall|a: int, b: int| 0 <= a < b < ns.tags.len() implies !((
            #[trigger] ns.tags[a]).name == (#[trigger] ns.tags[b]).name && ns.tags[a].feed
                == ns.tags[b].feed) by {
                lemma_keep_unique_tags(os.tags, id@, a, b);
            }
            assert forall|i: int| 0 <= i < ns.entries.len() implies has_feed(
                ns.feeds,
                (#[trigger] ns.entries[i]).feed,
            ) by {
                assert(os.entries.contains(ns.entries[i]));
                let w = choose|w: int| 0 <= w < os.entries.len() && os.entries[w] == ns.entries[i];
                assert(has_feed(os.feeds, os.entries[w].feed));
                let wf = choose|wf: int|
                    0 <= wf < os.feeds.len() && (#[trigger] os.feeds[wf]).id == os.entries[w].feed;
                assert(os.feeds[wf].id != id@);
                assert(keep_feeds(os.feeds, id@).contains(os.feeds[wf]));
                let k = choose|k: int|
                    0 <= k < ns.feeds.len() && (#[trigger] ns.feeds[k]) == os.feeds[wf];
                assert(ns.feeds[k].id == ns.entries[i].feed);
            }
            assert forall|i: int| 0 <= i < ns.tags.len() implies has_feed(
                ns.feeds,
                (#[trigger] ns.tags[i]).feed,
            ) by {
                assert(os.tags.contains(ns.tags[i]));
                let w = choose|w: int| 0 <= w < os.tags.len() && os.tags[w] == ns.tags[i];
                assert(has_feed(os.feeds, os.tags[w].feed));
                let wf = choose|wf: int|
                    0 <= wf < os.feeds.len() && (#[trigger] os.feeds[wf]).id == os.tags[w].feed;
                assert(os.feeds[wf].id != id@);
                assert(keep_feeds(os.feeds, id@).contains(os.feeds[wf]));
                let k = choose|k: int|
                    0 <= k < ns.feeds.len() && (#[trigger] ns.feeds[k]) == os.feeds[wf];
                assert(ns.feeds[k].id == ns.tags[i].feed);
            }
        }
    }
}

// ------------------------------------------------------------------
// Assembly: rows back into hierarchical feeds.
// ------------------------------------------------------------------

/// Strict lexicographic order on character sequences, by code point.
pub open spec fn lex_lt(a: Seq<char>, b: Seq<char>) -> bool
    decreases a.len(),
{
    if b.len() == 0 {
        false
    } else if a.len() == 0 {
        true
    } else if a[0] != b[0] {
        (a[0] as u32) < (b[0] as u32)
    } else {
        lex_lt(a.skip(1), b.skip(1))
    }
}

/// Whether entry `x` is returned before `y`: published descending, a tie
/// broken by id ascending. Meaningful for dated entries.
/// The published date an entry is ordered by; the empty text for none.
pub open spec fn pub_of(e: EntryV) -> Seq<char> {
    match e.published {
        Some(p) => p,
        None => Seq::empty(),
    }
}

pub open spec fn entry_before(x: EntryV, y: EntryV) -> bool {
    if pub_of(x) != pub_of(y) {
        lex_lt(pub_of(y), pub_of(x))
    } else {
        lex_lt(x.id, y.id)
    }
}

/// The entry a stored row stands for, if all its columns decode.
pub open spec fn entry_of_row(r: EntryRowV) -> Option<EntryV> {
    match parse_opt_text(r.title) {
        Some(title) => match parse_persons(r.authors) {
            Some(authors) => match parse_opt_text(r.summary) {
                Some(summary) => match parse_opt_content(r.content) {
                    Some(content) => match parse_links(r.links) {
                        Some(links) => Some(
                            EntryV {
                                id: r.id,
                                feed: r.feed,
                                title: title,
                                authors: authors,
                                summary: summary,
                                content: content,
                                links: links,
                                updated: r.updated,
                                published: r.published,
                                status: r.status,
                            },
                        ),
                        None => None,
                    },
                    None => None,
                },
                None => None,
            },
            None => None,
        },
        None => None,
    }
}

/// The decodable entries of one feed, in insertion order; a row whose
/// columns do not decode is skipped, never the whole read.
pub open spec fn feed_entries(entries: Seq<EntryRowV>, fid: Seq<char>) -> Seq<EntryV>
    decreases entries.len(),
{
    if entries.len() == 0 {
        Seq::empty()
    } else {
        let rest = feed_entries(entries.skip(1), fid);
        if entries[0].feed == fid {
            match entry_of_row(entries[0]) {
                Some(e) => seq![e] + rest,
                None => rest,
            }
        } else {
            rest
        }
    }
}

/// The entries that carry a published date, in order.
pub open spec fn dated_of(es: Seq<EntryV>) -> Seq<EntryV>
    decreases es.len(),
{
    if es.len() == 0 {
        Seq::empty()
    } else if es[0].published is Some {
        seq![es[0]] + dated_of(es.skip(1))
    } else {
        dated_of(es.skip(1))
    }
}

/// The entries without a published date, in insertion order.
pub open spec fn undated_of(es: Seq<EntryV>) -> Seq<EntryV>
    decreases es.len(),
{
    if es.len() == 0 {
        Seq::empty()
    } else if es[0].published is None {
        seq![es[0]] + undated_of(es.skip(1))
    } else {
        undated_of(es.skip(1))
    }
}

pub open spec fn insert_dated(s: Seq<EntryV>, e: EntryV) -> Seq<EntryV>
    decreases s.len(),
{
    if s.len() == 0 {
        seq![e]
    } else if entry_before(e, s[0]) {
        seq![e] + s
    } else {
        seq![s[0]] + insert_dated(s.skip(1), e)
    }
}

/// Insertion sort under `entry_before`.
pub open spec fn sort_dated(s: Seq<EntryV>) -> Seq<EntryV>
    decreases s.len(),
{
    if s.len() == 0 {
        Seq::empty()
    } else {
        insert_dated(sort_dated(s.drop_last()), s.last())
    }
}

/// A feed's entry list as reads return it: dated entries by published
/// descending with ties broken by id ascending, then undated entries in
/// insertion order — deterministic on every repeated read.
pub open spec fn ordered_entries(entries: Seq<EntryRowV>, fid: Seq<char>) -> Seq<EntryV> {
    let es = feed_entries(entries, fid);
    sort_dated(dated_of(es)) + undated_of(es)
}

/// The tag names of one feed, in insertion order.
pub open spec fn feed_tag_names(tags: Seq<TagRowV>, fid: Seq<char>) -> Seq<Seq<char>>
    decreases tags.len(),
{
    if tags.len() == 0 {
        Seq::empty()
    } else if tags[0].feed == fid {
        seq![tags[0].name] + feed_tag_names(tags.skip(1), fid)
    } else {
        feed_tag_names(tags.skip(1), fid)
    }
}

/// The feed a stored row stands for, entries and tags attached, if the
/// row's own columns decode.
pub open spec fn feed_of_row(
    entries: Seq<EntryRowV>,
    tags: Seq<TagRowV>,
    r: FeedRowV,
) -> Option<FeedV> {
    match parse_persons(r.authors) {
        Some(authors) => match parse_links(r.links) {
            Some(links) => Some(
                FeedV {
                    id: r.id,
                    title: r.title,
                    authors: authors,
                    description: r.description,
                    links: links,
                    icon: r.icon,
                    logo: r.logo,
                    updated: r.updated,
                    published: r.published,
                    tags: feed_tag_names(tags, r.id),
                    entries: ordered_entries(entries, r.id),
                },
            ),
            None => None,
        },
        None => None,
    }
}

/// Everything a bulk read returns, in feed-table order; a feed row whose
/// own columns do not decode is skipped.
pub open spec fn assembled(
    entries: Seq<EntryRowV>,
    tags: Seq<TagRowV>,
    feeds: Seq<FeedRowV>,
) -> Seq<FeedV>
    decreases feeds.len(),
{
    if feeds.len() == 0 {
        Seq::empty()
    } else {
        let rest = assembled(entries, tags, feeds.skip(1));
        match feed_of_row(entries, tags, feeds[0]) {
            Some(f) => seq![f] + rest,
            None => rest,
        }
    }
}

/// The same row with another status column.
pub open spec fn with_status(r: EntryRowV, s: u32) -> EntryRowV {
    EntryRowV {
        id: r.id,
        feed: r.feed,
        title: r.title,
        authors: r.authors,
        summary: r.summary,
        content: r.content,
        links: r.links,
        updated: r.updated,
        published: r.published,
        status: s,
    }
}

/// Two stores whose feed tables carry the same ids position by position,
/// and whose entries and tags agree on keys, are well-formed together.
proof fn lemma_same_ids_wf(a: StorageV, b: StorageV)
    requires
        a.wf(),
        b.feeds.len() == a.feeds.len(),
        forall|x: int| 0 <= x < b.feeds.len() ==> (#[trigger] b.feeds[x]).id == a.feeds[x].id,
        b.entries == a.entries,
        b.tags == a.tags,
    ensures
        b.wf(),
{
    assert forall|i: int, j: int| 0 <= i < j < b.feeds.len() implies (#[trigger] b.feeds[i]).id
        != (#[trigger] b.feeds[j]).id by {
        assert(b.feeds[i].id == a.feeds[i].id);
        assert(b.feeds[j].id == a.feeds[j].id);
    }
    assert forall|i: int| 0 <= i < b.entries.len() implies has_feed(
        b.feeds,
        (#[trigger] b.entries[i]).feed,
    ) by {
        assert(has_feed(a.feeds, a.entries[i].feed));
        let w = choose|w: int|
            0 <= w < a.feeds.len() && (#[trigger] a.feeds[w]).id == a.entries[i].feed;
        assert(b.feeds[w].id == b.entries[i].feed);
    }
    assert forall|i: int| 0 <= i < b.tags.len() implies has_feed(
        b.feeds,
        (#[trigger] b.tags[i]).feed,
    ) by {
        let w = choose|w: int| 0 <= w < a.feeds.len() && (#[trigger] a.feeds[w]).id == a.tags[i].feed;
        assert(b.feeds[w].id == b.tags[i].feed);
    }
}

/// A store whose entry table only changed non-key columns stays well
/// formed.
proof fn lemma_same_keys_wf(a: StorageV, b: StorageV)
    requires
        a.wf(),
        b.feeds == a.feeds,
        b.tags == a.tags,
        b.entries.len() == a.entries.len(),
        forall|x: int|
            0 <= x < b.entries.len() ==> (#[trigger] b.entries[x]).id == a.entries[x].id
                && b.entries[x].feed == a.entries[x].feed,
    ensures
        b.wf(),
{
}

/// Pairwise distinctness survives the delete filter, feed table.
proof fn lemma_keep_unique_feeds(feeds: Seq<FeedRowV>, id: Seq<char>, a: int, b: int)
    requires
        forall|i: int, j: int|
            0 <= i < j < feeds.len() ==> (#[trigger] feeds[i]).id != (#[trigger] feeds[j]).id,
        0 <= a < b < keep_feeds(feeds, id).len(),
    ensures
        keep_feeds(feeds, id)[a].id != keep_feeds(feeds, id)[b].id,
    decreases feeds.len(),
{
    let kf = keep_feeds(feeds, id);
    let ks = keep_feeds(feeds.skip(1), id);
    assert(forall|i: int| 1 <= i < feeds.len() ==> feeds[i] == (#[trigger] feeds.skip(1)[i - 1]));
    if feeds[0].id != id {
        if a == 0 {
            lemma_keep_feeds(feeds.skip(1), id);
            assert(kf[b] == ks[b - 1]);
            assert(feeds.skip(1).contains(ks[b - 1]));
            let w = choose|w: int| 0 <= w < feeds.skip(1).len() && feeds.skip(1)[w] == ks[b - 1];
            assert(feeds[w + 1] == ks[b - 1]);
            assert(feeds[0].id != feeds[w + 1].id);
        } else {
            lemma_keep_unique_feeds(feeds.skip(1), id, a - 1, b - 1);
            assert(kf[a] == ks[a - 1] && kf[b] == ks[b - 1]);
        }
    } else {
        lemma_keep_unique_feeds(feeds.skip(1), id, a, b);
    }
}

/// Pairwise distinctness survives the delete filter, entry table.
proof fn lemma_keep_unique_entries(entries: Seq<EntryRowV>, id: Seq<char>, a: int, b: int)
    requires
        forall|i: int, j: int|
            0 <= i < j < entries.len() ==> !((#[trigger] entries[i]).id == (
            #[trigger] entries[j]).id && entries[i].feed == entries[j].feed),
        0 <= a < b < keep_entries(entries, id).len(),
    ensures
        !(keep_entries(entries, id)[a].id == keep_entries(entries, id)[b].id && keep_entries(
            entries,
            id,
        )[a].feed == keep_entries(entries, id)[b].feed),
    decreases entries.len(),
{
    let kf = keep_entries(entries, id);
    let ks = keep_entries(entries.skip(1), id);
    assert(forall|i: int|
        1 <= i < entries.len() ==> entries[i] == (#[trigger] entries.skip(1)[i - 1]));
    if entries[0].feed != id {
        if a == 0 {
            lemma_keep_entries(entries.skip(1), id);
            assert(kf[b] == ks[b - 1]);
            assert(entries.skip(1).contains(ks[b - 1]));
            let w = choose|w: int| 0 <= w < entries.skip(1).len() && entries.skip(1)[w] == ks[b - 1];
            assert(entries[w + 1] == ks[b - 1]);
            assert(!(entries[0].id == entries[w + 1].id && entries[0].feed == entries[w + 1].feed));
        } else {
            lemma_keep_unique_entries(entries.skip(1), id, a - 1, b - 1);
            assert(kf[a] == ks[a - 1] && kf[b] == ks[b - 1]);
        }
    } else {
        lemma_keep_unique_entries(entries.skip(1), id, a, b);
    }
}

/// Pairwise distinctness survives the delete filter, tag table.
proof fn lemma_keep_unique_tags(tags: Seq<TagRowV>, id: Seq<char>, a: int, b: int)
    requires
        forall|i: int, j: int|
            0 <= i < j < tags.len() ==> !((#[trigger] tags[i]).name == (#[trigger] tags[j]).name
                && tags[i].feed == tags[j].feed),
        0 <= a < b < keep_tags(tags, id).len(),
    ensures
        !(keep_tags(tags, id)[a].name == keep_tags(tags, id)[b].name && keep_tags(tags, id)[a].feed
            == keep_tags(tags, id)[b].feed),
    decreases tags.len(),
{
    let kf = keep_tags(tags, id);
    let ks = keep_tags(tags.skip(1), id);
    assert(forall|i: int| 1 <= i < tags.len() ==> tags[i] == (#[trigger] tags.skip(1)[i - 1]));
    if tags[0].feed != id {
        if a == 0 {
            lemma_keep_tags(tags.skip(1), id);
            assert(kf[b] == ks[b - 1]);
            assert(tags.skip(1).contains(ks[b - 1]));
            let w = choose|w: int| 0 <= w < tags.skip(1).len() && tags.skip(1)[w] == ks[b - 1];
            assert(tags[w + 1] == ks[b - 1]);
            assert(!(tags[0].name == tags[w + 1].name && tags[0].feed == tags[w + 1].feed));
        } else {
            lemma_keep_unique_tags(tags.skip(1), id, a - 1, b - 1);
            assert(kf[a] == ks[a - 1] && kf[b] == ks[b - 1]);
        }
    } else {
        lemma_keep_unique_tags(tags.skip(1), id, a, b);
    }
}

fn str_eq(a: &str, b: &str) -> (r: bool)
    ensures
        r == (a@ == b@),
{
    let la = a.unicode_len();
    let lb = b.unicode_len();
    if la != lb {
        return false;
    }
    let mut i: usize = 0;
    while i < la
        invariant
            i <= la,
            la == a@.len(),
            la == b@.len(),
            forall|k: int| 0 <= k < i ==> a@[k] == b@[k],
        decreases la - i,
    {
        if a.get_char(i) != b.get_char(i) {
            return false;
        }
        i = i + 1;
    }
    proof {
        assert(a@ =~= b@);
    }
    true
}

fn lex_lt_at(a: &str, b: &str, i: usize) -> (r: bool)
    requires
        i <= a@.len(),
        i <= b@.len(),
    ensures
        r == lex_lt(a@.skip(i as int), b@.skip(i as int)),
    decreases a@.len() - i,
{
    let la = a.unicode_len();
    let lb = b.unicode_len();
    if i == lb {
        proof {
            assert(b@.skip(i as int).len() == 0);
        }
        false
    } else if i == la {
        proof {
            assert(a@.skip(i as int).len() == 0);
            assert(b@.skip(i as int).len() > 0);
        }
        true
    } else {
        let ca = a.get_char(i);
        let cb = b.get_char(i);
        proof {
            assert(a@.skip(i as int)[0] == a@[i as int]);
            assert(b@.skip(i as int)[0] == b@[i as int]);
            assert(a@.skip(i as int).skip(1) =~= a@.skip(i as int + 1));
            assert(b@.skip(i as int).skip(1) =~= b@.skip(i as int + 1));
        }
        if ca != cb {
            (ca as u32) < (cb as u32)
        } else {
            lex_lt_at(a, b, i + 1)
        }
    }
}

fn entry_before_exec(x: &Entry, y: &Entry) -> (r: bool)
    ensures
        r == entry_before(x@, y@),
{
    proof {
        reveal_strlit("");
        assert(""@ =~= Seq::<char>::empty());
    }
    let px: &str = match &x.published {
        Some(p) => p.as_str(),
        None => "",
    };
    let py: &str = match &y.published {
        Some(p) => p.as_str(),
        None => "",
    };
    proof {
        assert(px@.skip(0) =~= px@);
        assert(py@.skip(0) =~= py@);
        assert(x.id@.skip(0) =~= x.id@);
        assert(y.id@.skip(0) =~= y.id@);
    }
    if str_eq(px, py) {
        lex_lt_at(x.id.as_str(), y.id.as_str(), 0)
    } else {
        lex_lt_at(py, px, 0)
    }
}

fn entry_of_row_exec(r: &EntryRow) -> (res: Option<Entry>)
    ensures
        match res {
            Some(e) => entry_of_row(r@) == Some(e@),
            None => entry_of_row(r@) is None,
        },
{
    let title = match decode_opt_text(r.title.as_str()) {
        Ok(t) => t,
        Err(_) => {
            return None;
        },
    };
    let authors = match decode_persons(r.authors.as_str()) {
        Ok(a) => a,
        Err(_) => {
            return None;
        },
    };
    let summary = match decode_opt_text(r.summary.as_str()) {
        Ok(t) => t,
        Err(_) => {
            return None;
        },
    };
    let content = match decode_opt_content(r.content.as_str()) {
        Ok(c) => c,
        Err(_) => {
            return None;
        },
    };
    let links = match decode_links(r.links.as_str()) {
        Ok(l) => l,
        Err(_) => {
            return None;
        },
    };
    Some(
        Entry {
            id: r.id.clone(),
            feed: r.feed.clone(),
            title: title,
            authors: authors,
            summary: summary,
            content: content,
            links: links,
            updated: clone_opt(&r.updated),
            published: clone_opt(&r.published),
            status: Status(r.status),
        },
    )
}

fn collect_entries(entries: &Vec<EntryRow>, fid: &String, i: usize) -> (r: Vec<Entry>)
    requires
        i <= entries.len(),
    ensures
        r@.map_values(|e: Entry| e@) == feed_entries(
            entries@.map_values(|x: EntryRow| x@).skip(i as int),
            fid@,
        ),
    decreases entries.len() - i,
{
    let ghost m = entries@.map_values(|x: EntryRow| x@);
    if i == entries.len() {
        let r: Vec<Entry> = Vec::new();
        proof {
            assert(m.skip(i as int) =~= Seq::<EntryRowV>::empty());
            assert(r@.map_values(|e: Entry| e@) =~= Seq::<EntryV>::empty());
        }
        r
    } else {
        let mut rest = collect_entries(entries, fid, i + 1);
        proof {
            assert(m.skip(i as int)[0] == m[i as int]);
            assert(m.skip(i as int).skip(1) =~= m.skip(i as int + 1));
            assert(m[i as int] == entries@[i as int]@);
        }
        if entries[i].feed == *fid {
            match entry_of_row_exec(&entries[i]) {
                Some(e) => {
                    let ghost old_rest = rest@;
                    rest.insert(0, e);
                    proof {
                        assert(rest@.map_values(|x: Entry| x@) =~= seq![rest@[0]@]
                            + old_rest.map_values(|x: Entry| x@));
                    }
                },
                None => {},
            }
        }
        rest
    }
}

fn collect_tags(tags: &Vec<TagRow>, fid: &String, i: usize) -> (r: Vec<String>)
    requires
        i <= tags.len(),
    ensures
        r@.map_values(|t: String| t@) == feed_tag_names(
            tags@.map_values(|x: TagRow| x@).skip(i as int),
            fid@,
        ),
    decreases tags.len() - i,
{
    let ghost m = tags@.map_values(|x: TagRow| x@);
    if i == tags.len() {
        let r: Vec<String> = Vec::new();
        proof {
            assert(m.skip(i as int) =~= Seq::<TagRowV>::empty());
            assert(r@.map_values(|t: String| t@) =~= Seq::<Seq<char>>::empty());
        }
        r
    } else {
        let mut rest = collect_tags(tags, fid, i + 1);
        proof {
            assert(m.skip(i as int)[0] == m[i as int]);
            assert(m.skip(i as int).skip(1) =~= m.skip(i as int + 1));
            assert(m[i as int] == tags@[i as int]@);
        }
        if tags[i].feed == *fid {
            let ghost old_rest = rest@;
            rest.insert(0, tags[i].name.clone());
            proof {
                assert(rest@.map_values(|t: String| t@) =~= seq![rest@[0]@] + old_rest.map_values(
                    |t: String| t@,
                ));
            }
        }
        rest
    }
}

fn split_dated(es: Vec<Entry>) -> (r: (Vec<Entry>, Vec<Entry>))
    ensures
        r.0@.map_values(|e: Entry| e@) == dated_of(es@.map_values(|e: Entry| e@)),
        r.1@.map_values(|e: Entry| e@) == undated_of(es@.map_values(|e: Entry| e@)),
    decreases es.len(),
{
    let ghost m = es@.map_values(|e: Entry| e@);
    if es.len() == 0 {
        let d: Vec<Entry> = Vec::new();
        let u: Vec<Entry> = Vec::new();
        proof {
            assert(m =~= Seq::<EntryV>::empty());
            assert(d@.map_values(|e: Entry| e@) =~= Seq::<EntryV>::empty());
        }
        (d, u)
    } else {
        let mut es = es;
        let first = es.remove(0);
        proof {
            assert(es@.map_values(|e: Entry| e@) =~= m.skip(1));
            assert(m[0] == first@);
        }
        let pair = split_dated(es);
        let mut d = pair.0;
        let mut u = pair.1;
        if first.published.is_some() {
            let ghost old_d = d@;
            d.insert(0, first);
            proof {
                assert(d@.map_values(|e: Entry| e@) =~= seq![d@[0]@] + old_d.map_values(
                    |e: Entry| e@,
                ));
            }
        } else {
            let ghost old_u = u@;
            u.insert(0, first);
            proof {
                assert(u@.map_values(|e: Entry| e@) =~= seq![u@[0]@] + old_u.map_values(
                    |e: Entry| e@,
                ));
            }
        }
        (d, u)
    }
}

fn insert_dated_exec(s: Vec<Entry>, e: Entry) -> (r: Vec<Entry>)
    ensures
        r@.map_values(|x: Entry| x@) == insert_dated(s@.map_values(|x: Entry| x@), e@),
    decreases s.len(),
{
    let ghost m = s@.map_values(|x: Entry| x@);
    if s.len() == 0 {
        let mut r: Vec<Entry> = Vec::new();
        r.push(e);
        proof {
            assert(m =~= Seq::<EntryV>::empty());
            assert(r@.map_values(|x: Entry| x@) =~= seq![r@[0]@]);
        }
        r
    } else if entry_before_exec(&e, &s[0]) {
        let mut s = s;
        let ghost old_s = s@;
        s.insert(0, e);
        proof {
            assert(s@.map_values(|x: Entry| x@) =~= seq![s@[0]@] + old_s.map_values(
                |x: Entry| x@,
            ));
        }
        s
    } else {
        let mut s = s;
        let first = s.remove(0);
        proof {
            assert(s@.map_values(|x: Entry| x@) =~= m.skip(1));
            assert(m[0] == first@);
        }
        let mut rest = insert_dated_exec(s, e);
        let ghost old_rest = rest@;
        rest.insert(0, first);
        proof {
            assert(rest@.map_values(|x: Entry| x@) =~= seq![rest@[0]@] + old_rest.map_values(
                |x: Entry| x@,
            ));
        }
        rest
    }
}

fn sort_dated_exec(s: Vec<Entry>) -> (r: Vec<Entry>)
    ensures
        r@.map_values(|x: Entry| x@) == sort_dated(s@.map_values(|x: Entry| x@)),
    decreases s.len(),
{
    let ghost m = s@.map_values(|x: Entry| x@);
    if s.len() == 0 {
        proof {
            assert(m =~= Seq::<EntryV>::empty());
        }
        s
    } else {
        let mut s = s;
        let last = match s.pop() {
            Some(x) => x,
            None => {
                proof {
                    assert(false);
                }
                unreached()
            },
        };
        proof {
            assert(s@.map_values(|x: Entry| x@) =~= m.drop_last());
            assert(m.last() == last@);
        }
        let sorted = sort_dated_exec(s);
        insert_dated_exec(sorted, last)
    }
}

fn feed_of_row_exec(entries: &Vec<EntryRow>, tags: &Vec<TagRow>, r: &FeedRow) -> (res: Option<
    Feed,
>)
    ensures
        match res {
            Some(f) => feed_of_row(
                entries@.map_values(|x: EntryRow| x@),
                tags@.map_values(|x: TagRow| x@),
                r@,
            ) == Some(f@),
            None => feed_of_row(
                entries@.map_values(|x: EntryRow| x@),
                tags@.map_values(|x: TagRow| x@),
                r@,
            ) is None,
        },
{
    let authors = match decode_persons(r.authors.as_str()) {
        Ok(a) => a,
        Err(_) => {
            return None;
        },
    };
    let links = match decode_links(r.links.as_str()) {
        Ok(l) => l,
        Err(_) => {
            return None;
        },
    };
    let es = collect_entries(entries, &r.id, 0);
    proof {
        assert(entries@.map_values(|x: EntryRow| x@).skip(0) =~= entries@.map_values(
            |x: EntryRow| x@,
        ));
    }
    let pair = split_dated(es);
    let mut sorted = sort_dated_exec(pair.0);
    let mut undated = pair.1;
    let ghost sorted_v = sorted@;
    let ghost undated_v = undated@;
    sorted.append(&mut undated);
    proof {
        assert(sorted@.map_values(|x: Entry| x@) =~= sorted_v.map_values(|x: Entry| x@)
            + undated_v.map_values(|x: Entry| x@));
    }
    let tag_names = collect_tags(tags, &r.id, 0);
    proof {
        assert(tags@.map_values(|x: TagRow| x@).skip(0) =~= tags@.map_values(|x: TagRow| x@));
    }
    Some(
        Feed {
            id: r.id.clone(),
            title: clone_opt(&r.title),
            authors: authors,
            description: clone_opt(&r.description),
            links: links,
            icon: clone_opt(&r.icon),
            logo: clone_opt(&r.logo),
            updated: clone_opt(&r.updated),
            published: clone_opt(&r.published),
            tags: tag_names,
            entries: sorted,
        },
    )
}

impl Storage {
    fn assemble_from(&self, i: usize) -> (r: Vec<Feed>)
        requires
            i <= self.feeds.len(),
        ensures
            r@.map_values(|f: Feed| f@) == assembled(
                self@.entries,
                self@.tags,
                self@.feeds.skip(i as int),
            ),
        decreases self.feeds.len() - i,
    {
        if i == self.feeds.len() {
            let r: Vec<Feed> = Vec::new();
            proof {
                assert(self@.feeds.skip(i as int) =~= Seq::<FeedRowV>::empty());
                assert(r@.map_values(|f: Feed| f@) =~= Seq::<FeedV>::empty());
            }
            r
        } else {
            let mut rest = self.assemble_from(i + 1);
            proof {
                assert(self@.feeds.skip(i as int)[0] == self@.feeds[i as int]);
                assert(self@.feeds.skip(i as int).skip(1) =~= self@.feeds.skip(i as int + 1));
                assert(self@.feeds[i as int] == self.feeds@[i as int]@);
            }
            match feed_of_row_exec(&self.entries, &self.tags, &self.feeds[i]) {
                Some(f) => {
                    let ghost old_rest = rest@;
                    rest.insert(0, f);
                    proof {
                        assert(rest@.map_values(|x: Feed| x@) =~= seq![rest@[0]@]
                            + old_rest.map_values(|x: Feed| x@));
                    }
                },
                None => {},
            }
            rest
        }
    }

    /// The central read path: every feed, its entries and tags attached,
    /// assembled from the three tables in one pass each — never one query
    /// per feed. A row whose stored columns no longer decode is skipped;
    /// the read never fails as a whole.
    pub fn get_feeds(&self) -> (r: Vec<Feed>)
        ensures
            r@.map_values(|f: Feed| f@) == assembled(self@.entries, self@.tags, self@.feeds),
    {
        let r = self.assemble_from(0);
        proof {
            assert(self@.feeds.skip(0) =~= self@.feeds);
        }
        r
    }

    /// One feed by id, assembled as in `get_feeds`; absence, not an error,
    /// when the id is unknown, and absence too when the row itself no
    /// longer decodes.
    pub fn get_feed(&self, id: &String) -> (r: Option<Feed>)
        ensures
            match r {
                Some(f) => feed_at(self@.feeds, id@) >= 0 && feed_of_row(
                    self@.entries,
                    self@.tags,
                    self@.feeds[feed_at(self@.feeds, id@)],
                ) == Some(f@),
                None => feed_at(self@.feeds, id@) == -1 || feed_of_row(
                    self@.entries,
                    self@.tags,
                    self@.feeds[feed_at(self@.feeds, id@)],
                ) is None,
            },
    {
        match self.find_feed(id) {
            None => None,
            Some(j) => {
                proof {
                    lemma_feed_at(self@.feeds, id@);
                    assert(j < self.feeds@.len());
                    assert(self@.feeds[j as int] == self.feeds@[j as int]@);
                }
                feed_of_row_exec(&self.entries, &self.tags, &self.feeds[j])
            },
        }
    }
}

// ------------------------------------------------------------------
// Laws the storage layer keeps.
// ------------------------------------------------------------------

/// Re-ingesting an entry keeps its status: the row that replaces the old
/// one carries the old status column, so any set bit — starred, read, or a
/// reserved one — is still set afterwards.
pub proof fn lemma_reingest_keeps_status(s: StorageV, e: EntryV, bit: u32)
    requires
        entry_at(s.entries, e.id, e.feed) >= 0,
        s.entries[entry_at(s.entries, e.id, e.feed)].status & bit != 0,
    ensures
        ({
            let idx = entry_at(s.entries, e.id, e.feed);
            s.entries.update(idx, entry_row_v(e, s.entries[idx].status))[idx].status & bit != 0
        }),
{
    lemma_entry_at(s.entries, e.id, e.feed);
}

/// Tagging is idempotent on the model: once the association is there, the
/// add leaves the table exactly as it is, so a second add adds nothing.
pub proof fn lemma_add_tag_idempotent(tags: Seq<TagRowV>, name: Seq<char>, feed: Seq<char>)
    ensures
        ({
            let once = if has_tag(tags, name, feed) {
                tags
            } else {
                tags.push(TagRowV { name: name, feed: feed })
            };
            has_tag(once, name, feed) && (if has_tag(once, name, feed) {
                once
            } else {
                once.push(TagRowV { name: name, feed: feed })
            }) == once
        }),
{
    let once = if has_tag(tags, name, feed) {
        tags
    } else {
        tags.push(TagRowV { name: name, feed: feed })
    };
    if !has_tag(tags, name, feed) {
        assert(once[tags.len() as int].name == name && once[tags.len() as int].feed == feed);
    }
}

/// Ordering determinism for undated entries: when none of a feed's entries
/// carries a published date, the read returns them exactly in insertion
/// order.
proof fn lemma_dated_of_none(es: Seq<EntryV>)
    requires
        forall|i: int| 0 <= i < es.len() ==> (#[trigger] es[i]).published is None,
    ensures
        dated_of(es) == Seq::<EntryV>::empty(),
        undated_of(es) == es,
    decreases es.len(),
{
    if es.len() == 0 {
        assert(undated_of(es) =~= es);
    } else {
        assert(forall|i: int| 1 <= i < es.len() ==> es[i] == (#[trigger] es.skip(1)[i - 1]));
        lemma_dated_of_none(es.skip(1));
        assert(undated_of(es) == seq![es[0]] + undated_of(es.skip(1)));
        assert(seq![es[0]] + es.skip(1) =~= es);
    }
}

pub proof fn lemma_undated_keep_insertion_order(es: Seq<EntryV>)
    requires
        forall|i: int| 0 <= i < es.len() ==> (#[trigger] es[i]).published is None,
    ensures
        sort_dated(dated_of(es)) + undated_of(es) == es,
{
    lemma_dated_of_none(es);
    assert(sort_dated(Seq::<EntryV>::empty()) =~= Seq::<EntryV>::empty());
    assert(Seq::<EntryV>::empty() + es =~= es);
}

proof fn lemma_lex_lt_irrefl(a: Seq<char>)
    ensures
        !lex_lt(a, a),
    decreases a.len(),
{
    if a.len() > 0 {
        lemma_lex_lt_irrefl(a.skip(1));
    }
}

proof fn lemma_lex_lt_trans(a: Seq<char>, b: Seq<char>, c: Seq<char>)
    requires
        lex_lt(a, b),
        lex_lt(b, c),
    ensures
        lex_lt(a, c),
    decreases a.len(),
{
    if a.len() > 0 && b.len() > 0 && c.len() > 0 {
        if a[0] == b[0] && b[0] == c[0] {
            lemma_lex_lt_trans(a.skip(1), b.skip(1), c.skip(1));
        }
    }
}

proof fn lemma_entry_before_irrefl(x: EntryV)
    ensures
        !entry_before(x, x),
{
    lemma_lex_lt_irrefl(x.id);
}

proof fn lemma_entry_before_trans(x: EntryV, y: EntryV, z: EntryV)
    requires
        entry_before(x, y),
        entry_before(y, z),
    ensures
        entry_before(x, z),
{
    let px = pub_of(x);
    let py = pub_of(y);
    let pz = pub_of(z);
    if px != py && py != pz {
        lemma_lex_lt_trans(pz, py, px);
        if px == pz {
            lemma_lex_lt_irrefl(px);
        }
    } else if px == py && py == pz {
        lemma_lex_lt_trans(x.id, y.id, z.id);
    }
}

/// A returned dated prefix is in order: no later element comes before an
/// earlier one under `entry_before`.
pub open spec fn sorted_feed_order(s: Seq<EntryV>) -> bool {
    forall|i: int, j: int| 0 <= i < j < s.len() ==> !entry_before(s[j], s[i])
}

proof fn lemma_insert_dated_elems(s: Seq<EntryV>, e: EntryV)
    ensures
        insert_dated(s, e).len() == s.len() + 1,
        forall|k: int|
            0 <= k < insert_dated(s, e).len() ==> (#[trigger] insert_dated(s, e)[k] == e
                || s.contains(insert_dated(s, e)[k])),
    decreases s.len(),
{
    let r = insert_dated(s, e);
    if s.len() == 0 {
    } else if entry_before(e, s[0]) {
        assert forall|k: int| 0 <= k < r.len() implies (#[trigger] r[k] == e || s.contains(
            r[k],
        )) by {
            if k >= 1 {
                assert(r[k] == s[k - 1]);
            }
        }
    } else {
        lemma_insert_dated_elems(s.skip(1), e);
        let r2 = insert_dated(s.skip(1), e);
        assert forall|k: int| 0 <= k < r.len() implies (#[trigger] r[k] == e || s.contains(
            r[k],
        )) by {
            if k == 0 {
                assert(s.contains(s[0]));
            } else {
                assert(r[k] == r2[k - 1]);
                if r2[k - 1] != e {
                    assert(s.skip(1).contains(r2[k - 1]));
                    let w = choose|w: int|
                        0 <= w < s.skip(1).len() && s.skip(1)[w] == r2[k - 1];
                    assert(s[w + 1] == r2[k - 1]);
                }
            }
        }
    }
}

proof fn lemma_insert_dated_sorted(s: Seq<EntryV>, e: EntryV)
    requires
        sorted_feed_order(s),
    ensures
        sorted_feed_order(insert_dated(s, e)),
    decreases s.len(),
{
    let r = insert_dated(s, e);
    if s.len() == 0 {
    } else if entry_before(e, s[0]) {
        assert forall|i: int, j: int| 0 <= i < j < r.len() implies !entry_before(r[j], r[i]) by {
            assert(r[j] == s[j - 1]);
            if i == 0 {
                if entry_before(s[j - 1], e) {
                    lemma_entry_before_trans(s[j - 1], e, s[0]);
                    if j - 1 == 0 {
                        lemma_entry_before_irrefl(s[0]);
                    }
                }
            } else {
                assert(r[i] == s[i - 1]);
            }
        }
    } else {
        assert(forall|i: int| 1 <= i < s.len() ==> s[i] == (#[trigger] s.skip(1)[i - 1]));
        assert forall|i: int, j: int| 0 <= i < j < s.skip(1).len() implies !entry_before(
            #[trigger] s.skip(1)[j],
            #[trigger] s.skip(1)[i],
        ) by {
            assert(s.skip(1)[j] == s[j + 1] && s.skip(1)[i] == s[i + 1]);
        }
        lemma_insert_dated_sorted(s.skip(1), e);
        lemma_insert_dated_elems(s.skip(1), e);
        let r2 = insert_dated(s.skip(1), e);
        assert forall|i: int, j: int| 0 <= i < j < r.len() implies !entry_before(r[j], r[i]) by {
            if i == 0 {
                assert(r[j] == r2[j - 1]);
                if r2[j - 1] == e {
                    assert(!entry_before(e, s[0]));
                } else {
                    assert(s.skip(1).contains(r2[j - 1]));
                    let w = choose|w: int|
                        0 <= w < s.skip(1).len() && s.skip(1)[w] == r2[j - 1];
                    assert(s[w + 1] == r2[j - 1]);
                    assert(!entry_before(s[w + 1], s[0]));
                }
            } else {
                assert(r[i] == r2[i - 1] && r[j] == r2[j - 1]);
            }
        }
    }
}

/// The ordering law of reads: the dated entries a feed comes back with are
/// sorted — published descending, a tie broken by id ascending — whatever
/// rows the table holds.
pub proof fn lemma_sort_dated_sorted(s: Seq<EntryV>)
    ensures
        sorted_feed_order(sort_dated(s)),
    decreases s.len(),
{
    if s.len() > 0 {
        lemma_sort_dated_sorted(s.drop_last());
        lemma_insert_dated_sorted(sort_dated(s.drop_last()), s.last());
    }
}

proof fn lemma_insert_dated_multiset(s: Seq<EntryV>, e: EntryV)
    ensures
        insert_dated(s, e).to_multiset() == s.to_multiset().insert(e),
    decreases s.len(),
{
    broadcast use vstd::multiset::group_multiset_axioms;

    if s.len() == 0 {
        assert(s =~= Seq::<EntryV>::empty());
        assert(insert_dated(s, e) =~= Seq::<EntryV>::empty().push(e));
        Seq::<EntryV>::empty().to_multiset_ensures();
        assert(insert_dated(s, e).to_multiset() =~= s.to_multiset().insert(e));
    } else if entry_before(e, s[0]) {
        lemma_multiset_commutative(seq![e], s);
        assert(seq![e] =~= Seq::<EntryV>::empty().push(e));
        Seq::<EntryV>::empty().to_multiset_ensures();
        assert(Seq::<EntryV>::empty().to_multiset() =~= Multiset::<EntryV>::empty());
        assert(seq![e].to_multiset() =~= Multiset::<EntryV>::empty().insert(e));
        assert(insert_dated(s, e).to_multiset() == seq![e].to_multiset().add(s.to_multiset()));
        assert forall|x: EntryV|
            insert_dated(s, e).to_multiset().count(x) == s.to_multiset().insert(e).count(x) by {
            assert(insert_dated(s, e).to_multiset().count(x) == seq![e].to_multiset().count(x)
                + s.to_multiset().count(x));
        }
        assert(insert_dated(s, e).to_multiset() =~= s.to_multiset().insert(e));
    } else {
        let r2 = insert_dated(s.skip(1), e);
        lemma_insert_dated_multiset(s.skip(1), e);
        lemma_multiset_commutative(seq![s[0]], r2);
        lemma_multiset_commutative(seq![s[0]], s.skip(1));
        assert(seq![s[0]] + s.skip(1) =~= s);
        assert(seq![s[0]] =~= Seq::<EntryV>::empty().push(s[0]));
        Seq::<EntryV>::empty().to_multiset_ensures();
        assert(Seq::<EntryV>::empty().to_multiset() =~= Multiset::<EntryV>::empty());
        assert(seq![s[0]].to_multiset() =~= Multiset::<EntryV>::empty().insert(s[0]));
        assert(insert_dated(s, e).to_multiset() == seq![s[0]].to_multiset().add(r2.to_multiset()));
        assert(r2.to_multiset() == s.skip(1).to_multiset().insert(e));
        assert(s.to_multiset() == seq![s[0]].to_multiset().add(s.skip(1).to_multiset()));
        assert forall|x: EntryV|
            insert_dated(s, e).to_multiset().count(x) == s.to_multiset().insert(e).count(x) by {
            assert(insert_dated(s, e).to_multiset().count(x) == seq![s[0]].to_multiset().count(x)
                + s.skip(1).to_multiset().insert(e).count(x));
        }
        assert(insert_dated(s, e).to_multiset() =~= s.to_multiset().insert(e));
    }
}

/// The permutation law of reads: sorting the dated entries neither drops,
/// invents nor duplicates one — the same rows come back, reordered.
pub proof fn lemma_sort_dated_multiset(s: Seq<EntryV>)
    ensures
        sort_dated(s).to_multiset() == s.to_multiset(),
    decreases s.len(),
{
    broadcast use vstd::multiset::group_multiset_axioms;

    if s.len() == 0 {
        assert(s =~= Seq::<EntryV>::empty());
        assert(sort_dated(s) =~= s);
    } else {
        lemma_sort_dated_multiset(s.drop_last());
        lemma_insert_dated_multiset(sort_dated(s.drop_last()), s.last());
        s.drop_last().to_multiset_ensures();
        assert(s.drop_last().push(s.last()).to_multiset() =~= s.drop_last().to_multiset().insert(
            s.last(),
        ));
        assert(s.drop_last().push(s.last()) =~= s);
        assert(sort_dated(s).to_multiset() =~= s.to_multiset());
    }
}

/// How often an association is stored.
pub open spec fn tag_count(tags: Seq<TagRowV>, name: Seq<char>, feed: Seq<char>) -> nat
    decreases tags.len(),
{
    if tags.len() == 0 {
        0
    } else {
        (if tags[0].name == name && tags[0].feed == feed {
            1 as nat
        } else {
            0 as nat
        }) + tag_count(tags.skip(1), name, feed)
    }
}

proof fn lemma_tag_count_zero(tags: Seq<TagRowV>, name: Seq<char>, feed: Seq<char>)
    requires
        forall|i: int|
            0 <= i < tags.len() ==> !((#[trigger] tags[i]).name == name && tags[i].feed == feed),
    ensures
        tag_count(tags, name, feed) == 0,
    decreases tags.len(),
{
    if tags.len() > 0 {
        assert(forall|i: int| 1 <= i < tags.len() ==> tags[i] == (#[trigger] tags.skip(1)[i - 1]));
        lemma_tag_count_zero(tags.skip(1), name, feed);
    }
}

/// Exactly one association row: in a well-formed store a present tag is
/// stored once, so adding it a second time adds nothing.
pub proof fn lemma_tag_stored_once(tags: Seq<TagRowV>, name: Seq<char>, feed: Seq<char>)
    requires
        forall|i: int, j: int|
            0 <= i < j < tags.len() ==> !((#[trigger] tags[i]).name == (#[trigger] tags[j]).name
                && tags[i].feed == tags[j].feed),
        has_tag(tags, name, feed),
    ensures
        tag_count(tags, name, feed) == 1,
    decreases tags.len(),
{
    assert(forall|i: int| 1 <= i < tags.len() ==> tags[i] == (#[trigger] tags.skip(1)[i - 1]));
    if tags[0].name == name && tags[0].feed == feed {
        assert forall|i: int| 0 <= i < tags.skip(1).len() implies !((#[trigger] tags.skip(
            1,
        )[i]).name == name && tags.skip(1)[i].feed == feed) by {
            assert(tags.skip(1)[i] == tags[i + 1]);
            assert(!(tags[0].name == tags[i + 1].name && tags[0].feed == tags[i + 1].feed));
        }
        lemma_tag_count_zero(tags.skip(1), name, feed);
    } else {
        let w = choose|i: int|
            0 <= i < tags.len() && (#[trigger] tags[i]).name == name && tags[i].feed == feed;
        assert(tags.skip(1)[w - 1].name == name && tags.skip(1)[w - 1].feed == feed);
        assert(has_tag(tags.skip(1), name, feed));
        assert forall|i: int, j: int| 0 <= i < j < tags.skip(1).len() implies !((#[trigger] tags.skip(
            1,
        )[i]).name == (#[trigger] tags.skip(1)[j]).name && tags.skip(1)[i].feed == tags.skip(
            1,
        )[j].feed) by {
            assert(tags.skip(1)[i] == tags[i + 1] && tags.skip(1)[j] == tags[j + 1]);
        }
        lemma_tag_stored_once(tags.skip(1), name, feed);
    }
}

} // verus!
