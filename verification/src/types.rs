//! The domain value objects: feeds, entries, and the nested values they
//! carry. Each type has a mathematical view that contracts speak of.

use crate::media::MediaType;
use crate::status::Status;
use vstd::prelude::*;

verus! {

/// View of an optional text as an optional character sequence.
pub open spec fn opt_view(o: Option<String>) -> Option<Seq<char>> {
    match o {
        Some(s) => Some(s@),
        None => None,
    }
}

/// A link to a web resource.
pub struct Link {
    pub href: String,
    pub rel: Option<String>,
    pub media_type: Option<String>,
    pub href_lang: Option<String>,
    pub title: Option<String>,
    pub length: Option<u64>,
}

pub ghost struct LinkV {
    pub href: Seq<char>,
    pub rel: Option<Seq<char>>,
    pub media_type: Option<Seq<char>>,
    pub href_lang: Option<Seq<char>>,
    pub title: Option<Seq<char>>,
    pub length: Option<u64>,
}

impl View for Link {
    type V = LinkV;

    open spec fn view(&self) -> LinkV {
        LinkV {
            href: self.href@,
            rel: opt_view(self.rel),
            media_type: opt_view(self.media_type),
            href_lang: opt_view(self.href_lang),
            title: opt_view(self.title),
            length: self.length,
        }
    }
}

/// An author or contributor.
pub struct Person {
    pub name: String,
    pub uri: Option<String>,
    pub email: Option<String>,
}

pub ghost struct PersonV {
    pub name: Seq<char>,
    pub uri: Option<Seq<char>>,
    pub email: Option<Seq<char>>,
}

impl View for Person {
    type V = PersonV;

    open spec fn view(&self) -> PersonV {
        PersonV { name: self.name@, uri: opt_view(self.uri), email: opt_view(self.email) }
    }
}

/// A piece of text with the media type that governs its rendering.
pub struct Text {
    pub content_type: MediaType,
    pub src: Option<String>,
    pub content: String,
}

pub ghost struct TextV {
    pub content_type: Seq<char>,
    pub src: Option<Seq<char>>,
    pub content: Seq<char>,
}

impl View for Text {
    type V = TextV;

    open spec fn view(&self) -> TextV {
        TextV {
            content_type: self.content_type@,
            src: opt_view(self.src),
            content: self.content@,
        }
    }
}

impl Text {
    /// The held media type is in canonical form.
    pub open spec fn wf(&self) -> bool {
        self.content_type.wf()
    }
}

/// An entry's body, held inline or behind a link.
pub struct Content {
    pub body: Option<String>,
    pub content_type: MediaType,
    pub length: Option<u64>,
    pub src: Option<Link>,
}

pub ghost struct ContentV {
    pub body: Option<Seq<char>>,
    pub content_type: Seq<char>,
    pub length: Option<u64>,
    pub src: Option<LinkV>,
}

impl View for Content {
    type V = ContentV;

    open spec fn view(&self) -> ContentV {
        ContentV {
            body: opt_view(self.body),
            content_type: self.content_type@,
            length: self.length,
            src: match self.src {
                Some(l) => Some(l@),
                None => None,
            },
        }
    }
}

impl Content {
    /// The held media type is in canonical form.
    pub open spec fn wf(&self) -> bool {
        self.content_type.wf()
    }
}

/// Views of a list of links.
pub open spec fn links_view(v: Seq<Link>) -> Seq<LinkV> {
    v.map_values(|l: Link| l@)
}

/// Views of a list of persons.
pub open spec fn persons_view(v: Seq<Person>) -> Seq<PersonV> {
    v.map_values(|p: Person| p@)
}

/// One syndicated item of a feed, with its application-owned status.
pub struct Entry {
    pub id: String,
    pub feed: String,
    pub title: Option<Text>,
    pub authors: Vec<Person>,
    pub summary: Option<Text>,
    pub content: Option<Content>,
    pub links: Vec<Link>,
    pub updated: Option<String>,
    pub published: Option<String>,
    pub status: Status,
}

pub ghost struct EntryV {
    pub id: Seq<char>,
    pub feed: Seq<char>,
    pub title: Option<TextV>,
    pub authors: Seq<PersonV>,
    pub summary: Option<TextV>,
    pub content: Option<ContentV>,
    pub links: Seq<LinkV>,
    pub updated: Option<Seq<char>>,
    pub published: Option<Seq<char>>,
    pub status: u32,
}

impl View for Entry {
    type V = EntryV;

    open spec fn view(&self) -> EntryV {
        EntryV {
            id: self.id@,
            feed: self.feed@,
            title: match self.title {
                Some(t) => Some(t@),
                None => None,
            },
            authors: persons_view(self.authors@),
            summary: match self.summary {
                Some(t) => Some(t@),
                None => None,
            },
            content: match self.content {
                Some(c) => Some(c@),
                None => None,
            },
            links: links_view(self.links@),
            updated: opt_view(self.updated),
            published: opt_view(self.published),
            status: self.status.0,
        }
    }
}

impl Entry {
    /// Every held media type is in canonical form.
    pub open spec fn wf(&self) -> bool {
        &&& match self.title {
            Some(t) => t.wf(),
            None => true,
        }
        &&& match self.summary {
            Some(t) => t.wf(),
            None => true,
        }
        &&& match self.content {
            Some(c) => c.wf(),
            None => true,
        }
    }
}

/// One syndication source, with its entries and tags attached on read.
pub struct Feed {
    pub id: String,
    pub title: Option<String>,
    pub authors: Vec<Person>,
    pub description: Option<String>,
    pub links: Vec<Link>,
    pub icon: Option<String>,
    pub logo: Option<String>,
    pub updated: Option<String>,
    pub published: Option<String>,
    pub tags: Vec<String>,
    pub entries: Vec<Entry>,
}

pub ghost struct FeedV {
    pub id: Seq<char>,
    pub title: Option<Seq<char>>,
    pub authors: Seq<PersonV>,
    pub description: Option<Seq<char>>,
    pub links: Seq<LinkV>,
    pub icon: Option<Seq<char>>,
    pub logo: Option<Seq<char>>,
    pub updated: Option<Seq<char>>,
    pub published: Option<Seq<char>>,
    pub tags: Seq<Seq<char>>,
    pub entries: Seq<EntryV>,
}

impl View for Feed {
    type V = FeedV;

    open spec fn view(&self) -> FeedV {
        FeedV {
            id: self.id@,
            title: opt_view(self.title),
            authors: persons_view(self.authors@),
            description: opt_view(self.description),
            links: links_view(self.links@),
            icon: opt_view(self.icon),
            logo: opt_view(self.logo),
            updated: opt_view(self.updated),
            published: opt_view(self.published),
            tags: self.tags@.map_values(|t: String| t@),
            entries: self.entries@.map_values(|e: Entry| e@),
        }
    }
}

} // verus!
