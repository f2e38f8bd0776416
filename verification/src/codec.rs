//! The value codec: lossless conversion between nested value objects and
//! one textual column. Records are field-keyed, so a reader skips unknown
//! keys and future fields do not break old rows. Absent optional fields
//! round-trip as absent; a malformed column, a missing required field, or
//! a content type the mime grammar refuses all decode to `DecodeError`.

use crate::encoding::chars_to_string;
use crate::encoding::dec_rep;
use crate::encoding::escape;
use crate::encoding::field_views;
use crate::encoding::parse_record_chars;
use crate::encoding::parse_u64_chars;
use crate::encoding::record_from_fields;
use crate::encoding::split_chars;
use crate::encoding::str_to_chars;
use crate::encoding::u64_to_chars;
use crate::encoding::unescape_chars;
use crate::encoding::vec_skip;
use crate::encoding::views_of;
use crate::encoding::field_rep;
use crate::encoding::is_special;
use crate::encoding::join_with;
use crate::encoding::lemma_escape_len;
use crate::encoding::lemma_escape_no_sep;
use crate::encoding::lemma_parse_dec_rep;
use crate::encoding::lemma_record_round_trip;
use crate::encoding::lemma_split_join;
use crate::encoding::lemma_unescape_escape;
use crate::encoding::parse_record;
use crate::encoding::parse_u64;
use crate::encoding::record_rep;
use crate::encoding::split_on;
use crate::encoding::unescape;
use crate::encoding::lemma_join_push;
use crate::encoding::push_escaped;
use crate::media::mime_canonical;
use crate::media::MediaType;
use crate::types::links_view;
use crate::types::opt_view;
use crate::types::persons_view;
use crate::types::Content;
use crate::types::ContentV;
use crate::types::Link;
use crate::types::LinkV;
use crate::types::Person;
use crate::types::PersonV;
use crate::types::Text;
use crate::types::TextV;
use vstd::prelude::*;

verus! {

/// A stored column could not be read back: the text is not a record, a
/// required field is missing, or a content type does not parse.
#[derive(Clone, Copy, PartialEq, Eq, Structural, Debug)]
pub struct DecodeError;

/// Written form of an optional value: `+` before a present value, `-` alone
/// for absence.
pub open spec fn opt_rep(o: Option<Seq<char>>) -> Seq<char> {
    match o {
        Some(v) => seq!['+'] + v,
        None => seq!['-'],
    }
}

pub open spec fn parse_opt(v: Seq<char>) -> Option<Option<Seq<char>>> {
    if v.len() >= 1 && v[0] == '+' {
        Some(Some(v.skip(1)))
    } else if v.len() == 1 && v[0] == '-' {
        Some(None)
    } else {
        None
    }
}

pub proof fn lemma_opt_round_trip(o: Option<Seq<char>>)
    ensures
        parse_opt(opt_rep(o)) == Some(o),
{
    match o {
        Some(v) => {
            assert((seq!['+'] + v).skip(1) =~= v);
        },
        None => {},
    }
}

/// Written form of an optional number.
pub open spec fn opt_num_rep(o: Option<u64>) -> Seq<char> {
    match o {
        Some(n) => seq!['+'] + dec_rep(n as nat),
        None => seq!['-'],
    }
}

pub open spec fn parse_opt_num(v: Seq<char>) -> Option<Option<u64>> {
    match parse_opt(v) {
        Some(Some(d)) => match parse_u64(d) {
            Some(n) => Some(Some(n)),
            None => None,
        },
        Some(None) => Some(None),
        None => None,
    }
}

pub proof fn lemma_opt_num_round_trip(o: Option<u64>)
    ensures
        parse_opt_num(opt_num_rep(o)) == Some(o),
{
    match o {
        Some(n) => {
            assert((seq!['+'] + dec_rep(n as nat)).skip(1) =~= dec_rep(n as nat));
            lemma_parse_dec_rep(n);
        },
        None => {},
    }
}

// ------------------------------------------------------------------
// Links.
// ------------------------------------------------------------------

pub open spec fn link_fields(l: LinkV) -> Seq<(char, Seq<char>)> {
    seq![
        ('h', l.href),
        ('r', opt_rep(l.rel)),
        ('m', opt_rep(l.media_type)),
        ('l', opt_rep(l.href_lang)),
        ('t', opt_rep(l.title)),
        ('n', opt_num_rep(l.length)),
    ]
}

/// The column a link is stored as.
pub open spec fn enc_link(l: LinkV) -> Seq<char> {
    record_rep(link_fields(l))
}

pub ghost struct LinkAcc {
    pub href: Option<Seq<char>>,
    pub rel: Option<Seq<char>>,
    pub media_type: Option<Seq<char>>,
    pub href_lang: Option<Seq<char>>,
    pub title: Option<Seq<char>>,
    pub length: Option<u64>,
}

pub open spec fn link_acc0() -> LinkAcc {
    LinkAcc { href: None, rel: None, media_type: None, href_lang: None, title: None, length: None }
}

pub open spec fn link_step(acc: LinkAcc, k: char, v: Seq<char>) -> Option<LinkAcc> {
    if k == 'h' {
        Some(LinkAcc { href: Some(v), ..acc })
    } else if k == 'r' {
        match parse_opt(v) {
            Some(o) => Some(LinkAcc { rel: o, ..acc }),
            None => None,
        }
    } else if k == 'm' {
        match parse_opt(v) {
            Some(o) => Some(LinkAcc { media_type: o, ..acc }),
            None => None,
        }
    } else if k == 'l' {
        match parse_opt(v) {
            Some(o) => Some(LinkAcc { href_lang: o, ..acc }),
            None => None,
        }
    } else if k == 't' {
        match parse_opt(v) {
            Some(o) => Some(LinkAcc { title: o, ..acc }),
            None => None,
        }
    } else if k == 'n' {
        match parse_opt_num(v) {
            Some(o) => Some(LinkAcc { length: o, ..acc }),
            None => None,
        }
    } else {
        Some(acc)
    }
}

pub open spec fn link_fold(fs: Seq<(char, Seq<char>)>, acc: LinkAcc) -> Option<LinkAcc>
    decreases fs.len(),
{
    if fs.len() == 0 {
        Some(acc)
    } else {
        match link_step(acc, fs[0].0, fs[0].1) {
            Some(a) => link_fold(fs.skip(1), a),
            None => None,
        }
    }
}

pub open spec fn link_finish(acc: LinkAcc) -> Option<LinkV> {
    match acc.href {
        Some(h) => Some(
            LinkV {
                href: h,
                rel: acc.rel,
                media_type: acc.media_type,
                href_lang: acc.href_lang,
                title: acc.title,
                length: acc.length,
            },
        ),
        None => None,
    }
}

/// The link a stored column stands for, if any.
pub open spec fn parse_link(s: Seq<char>) -> Option<LinkV> {
    match parse_record(s) {
        Some(fs) => match link_fold(fs, link_acc0()) {
            Some(acc) => link_finish(acc),
            None => None,
        },
        None => None,
    }
}

/// Decoding inverts encoding, for every representable link.
pub proof fn lemma_link_round_trip(l: LinkV)
    ensures
        parse_link(enc_link(l)) == Some(l),
{
    let fs = link_fields(l);
    assert(forall|i: int| 0 <= i < fs.len() ==> !is_special((#[trigger] fs[i]).0));
    lemma_record_round_trip(fs);
    lemma_opt_round_trip(l.rel);
    lemma_opt_round_trip(l.media_type);
    lemma_opt_round_trip(l.href_lang);
    lemma_opt_round_trip(l.title);
    lemma_opt_num_round_trip(l.length);
    reveal_with_fuel(link_fold, 8);
    assert(fs.skip(1).skip(1) =~= fs.skip(2));
    assert(fs.skip(2).skip(1) =~= fs.skip(3));
    assert(fs.skip(3).skip(1) =~= fs.skip(4));
    assert(fs.skip(4).skip(1) =~= fs.skip(5));
    assert(fs.skip(5).skip(1) =~= fs.skip(6));
    assert(fs.skip(6).len() == 0);
    assert(link_fold(fs, link_acc0()) == Some(
        LinkAcc {
            href: Some(l.href),
            rel: l.rel,
            media_type: l.media_type,
            href_lang: l.href_lang,
            title: l.title,
            length: l.length,
        },
    ));
}

/// Encoded links are never empty: the record always starts with its first
/// required field.
pub proof fn lemma_enc_link_len(l: LinkV)
    ensures
        enc_link(l).len() >= 2,
{
    let fs = link_fields(l);
    let parts = fs.map_values(|kv: (char, Seq<char>)| field_rep(kv.0, kv.1));
    lemma_join_first_len(parts, ';');
    assert(parts[0] == field_rep('h', l.href));
}

/// The joined text is at least as long as its first piece.
pub proof fn lemma_join_first_len(parts: Seq<Seq<char>>, sep: char)
    requires
        parts.len() >= 1,
    ensures
        join_with(parts, sep).len() >= parts[0].len(),
{
    if parts.len() > 1 {
        assert(join_with(parts, sep) == parts[0] + seq![sep] + join_with(parts.skip(1), sep));
    }
}

// ------------------------------------------------------------------
// Persons.
// ------------------------------------------------------------------

pub open spec fn person_fields(p: PersonV) -> Seq<(char, Seq<char>)> {
    seq![('n', p.name), ('u', opt_rep(p.uri)), ('e', opt_rep(p.email))]
}

/// The column a person is stored as.
pub open spec fn enc_person(p: PersonV) -> Seq<char> {
    record_rep(person_fields(p))
}

pub ghost struct PersonAcc {
    pub name: Option<Seq<char>>,
    pub uri: Option<Seq<char>>,
    pub email: Option<Seq<char>>,
}

pub open spec fn person_acc0() -> PersonAcc {
    PersonAcc { name: None, uri: None, email: None }
}

pub open spec fn person_step(acc: PersonAcc, k: char, v: Seq<char>) -> Option<PersonAcc> {
    if k == 'n' {
        Some(PersonAcc { name: Some(v), ..acc })
    } else if k == 'u' {
        match parse_opt(v) {
            Some(o) => Some(PersonAcc { uri: o, ..acc }),
            None => None,
        }
    } else if k == 'e' {
        match parse_opt(v) {
            Some(o) => Some(PersonAcc { email: o, ..acc }),
            None => None,
        }
    } else {
        Some(acc)
    }
}

pub open spec fn person_fold(fs: Seq<(char, Seq<char>)>, acc: PersonAcc) -> Option<PersonAcc>
    decreases fs.len(),
{
    if fs.len() == 0 {
        Some(acc)
    } else {
        match person_step(acc, fs[0].0, fs[0].1) {
            Some(a) => person_fold(fs.skip(1), a),
            None => None,
        }
    }
}

pub open spec fn person_finish(acc: PersonAcc) -> Option<PersonV> {
    match acc.name {
        Some(n) => Some(PersonV { name: n, uri: acc.uri, email: acc.email }),
        None => None,
    }
}

/// The person a stored column stands for, if any.
pub open spec fn parse_person(s: Seq<char>) -> Option<PersonV> {
    match parse_record(s) {
        Some(fs) => match person_fold(fs, person_acc0()) {
            Some(acc) => person_finish(acc),
            None => None,
        },
        None => None,
    }
}

/// Decoding inverts encoding, for every representable person.
pub proof fn lemma_person_round_trip(p: PersonV)
    ensures
        parse_person(enc_person(p)) == Some(p),
{
    let fs = person_fields(p);
    assert(forall|i: int| 0 <= i < fs.len() ==> !is_special((#[trigger] fs[i]).0));
    lemma_record_round_trip(fs);
    lemma_opt_round_trip(p.uri);
    lemma_opt_round_trip(p.email);
    reveal_with_fuel(person_fold, 5);
    assert(fs.skip(1).skip(1) =~= fs.skip(2));
    assert(fs.skip(2).skip(1) =~= fs.skip(3));
    assert(fs.skip(3).len() == 0);
    assert(person_fold(fs, person_acc0()) == Some(
        PersonAcc { name: Some(p.name), uri: p.uri, email: p.email },
    ));
}

pub proof fn lemma_enc_person_len(p: PersonV)
    ensures
        enc_person(p).len() >= 2,
{
    let fs = person_fields(p);
    let parts = fs.map_values(|kv: (char, Seq<char>)| field_rep(kv.0, kv.1));
    lemma_join_first_len(parts, ';');
    assert(parts[0] == field_rep('n', p.name));
}

// ------------------------------------------------------------------
// Texts.
// ------------------------------------------------------------------

pub open spec fn text_fields(t: TextV) -> Seq<(char, Seq<char>)> {
    seq![('m', t.content_type), ('s', opt_rep(t.src)), ('c', t.content)]
}

/// The column a text is stored as: its content type in canonical form.
pub open spec fn enc_text(t: TextV) -> Seq<char> {
    record_rep(text_fields(t))
}

pub ghost struct TextAcc {
    pub content_type: Option<Seq<char>>,
    pub src: Option<Seq<char>>,
    pub content: Option<Seq<char>>,
}

pub open spec fn text_acc0() -> TextAcc {
    TextAcc { content_type: None, src: None, content: None }
}

pub open spec fn text_step(acc: TextAcc, k: char, v: Seq<char>) -> Option<TextAcc> {
    if k == 'm' {
        match mime_canonical(v) {
            Some(c) => Some(TextAcc { content_type: Some(c), ..acc }),
            None => None,
        }
    } else if k == 's' {
        match parse_opt(v) {
            Some(o) => Some(TextAcc { src: o, ..acc }),
            None => None,
        }
    } else if k == 'c' {
        Some(TextAcc { content: Some(v), ..acc })
    } else {
        Some(acc)
    }
}

pub open spec fn text_fold(fs: Seq<(char, Seq<char>)>, acc: TextAcc) -> Option<TextAcc>
    decreases fs.len(),
{
    if fs.len() == 0 {
        Some(acc)
    } else {
        match text_step(acc, fs[0].0, fs[0].1) {
            Some(a) => text_fold(fs.skip(1), a),
            None => None,
        }
    }
}

pub open spec fn text_finish(acc: TextAcc) -> Option<TextV> {
    match (acc.content_type, acc.content) {
        (Some(m), Some(c)) => Some(TextV { content_type: m, src: acc.src, content: c }),
        _ => None,
    }
}

/// The text a stored column stands for, if any: the content type must
/// itself parse under the mime grammar.
pub open spec fn parse_text(s: Seq<char>) -> Option<TextV> {
    match parse_record(s) {
        Some(fs) => match text_fold(fs, text_acc0()) {
            Some(acc) => text_finish(acc),
            None => None,
        },
        None => None,
    }
}

/// Decoding inverts encoding for every text whose content type is held in
/// canonical form, as every `Text` of this crate holds it.
pub proof fn lemma_text_round_trip(t: TextV)
    requires
        mime_canonical(t.content_type) == Some(t.content_type),
    ensures
        parse_text(enc_text(t)) == Some(t),
{
    let fs = text_fields(t);
    assert(forall|i: int| 0 <= i < fs.len() ==> !is_special((#[trigger] fs[i]).0));
    lemma_record_round_trip(fs);
    lemma_opt_round_trip(t.src);
    reveal_with_fuel(text_fold, 5);
    assert(fs.skip(1).skip(1) =~= fs.skip(2));
    assert(fs.skip(2).skip(1) =~= fs.skip(3));
    assert(fs.skip(3).len() == 0);
    assert(text_fold(fs, text_acc0()) == Some(
        TextAcc { content_type: Some(t.content_type), src: t.src, content: Some(t.content) },
    ));
}

pub proof fn lemma_enc_text_len(t: TextV)
    ensures
        enc_text(t).len() >= 2,
{
    let fs = text_fields(t);
    let parts = fs.map_values(|kv: (char, Seq<char>)| field_rep(kv.0, kv.1));
    lemma_join_first_len(parts, ';');
    assert(parts[0] == field_rep('m', t.content_type));
}

// ------------------------------------------------------------------
// Contents.
// ------------------------------------------------------------------

/// Written form of an optional nested link.
pub open spec fn opt_link_rep(o: Option<LinkV>) -> Seq<char> {
    match o {
        Some(l) => seq!['+'] + enc_link(l),
        None => seq!['-'],
    }
}

pub open spec fn content_fields(c: ContentV) -> Seq<(char, Seq<char>)> {
    seq![
        ('b', opt_rep(c.body)),
        ('m', c.content_type),
        ('n', opt_num_rep(c.length)),
        ('s', opt_link_rep(c.src)),
    ]
}

/// The column a content is stored as.
pub open spec fn enc_content(c: ContentV) -> Seq<char> {
    record_rep(content_fields(c))
}

pub ghost struct ContentAcc {
    pub body: Option<Seq<char>>,
    pub content_type: Option<Seq<char>>,
    pub length: Option<u64>,
    pub src: Option<LinkV>,
}

pub open spec fn content_acc0() -> ContentAcc {
    ContentAcc { body: None, content_type: None, length: None, src: None }
}

pub open spec fn content_step(acc: ContentAcc, k: char, v: Seq<char>) -> Option<ContentAcc> {
    if k == 'b' {
        match parse_opt(v) {
            Some(o) => Some(ContentAcc { body: o, ..acc }),
            None => None,
        }
    } else if k == 'm' {
        match mime_canonical(v) {
            Some(c) => Some(ContentAcc { content_type: Some(c), ..acc }),
            None => None,
        }
    } else if k == 'n' {
        match parse_opt_num(v) {
            Some(o) => Some(ContentAcc { length: o, ..acc }),
            None => None,
        }
    } else if k == 's' {
        match parse_opt(v) {
            Some(Some(u)) => match parse_link(u) {
                Some(l) => Some(ContentAcc { src: Some(l), ..acc }),
                None => None,
            },
            Some(None) => Some(ContentAcc { src: None, ..acc }),
            None => None,
        }
    } else {
        Some(acc)
    }
}

pub open spec fn content_fold(fs: Seq<(char, Seq<char>)>, acc: ContentAcc) -> Option<ContentAcc>
    decreases fs.len(),
{
    if fs.len() == 0 {
        Some(acc)
    } else {
        match content_step(acc, fs[0].0, fs[0].1) {
            Some(a) => content_fold(fs.skip(1), a),
            None => None,
        }
    }
}

pub open spec fn content_finish(acc: ContentAcc) -> Option<ContentV> {
    match acc.content_type {
        Some(m) => Some(
            ContentV { body: acc.body, content_type: m, length: acc.length, src: acc.src },
        ),
        None => None,
    }
}

/// The content a stored column stands for, if any.
pub open spec fn parse_content(s: Seq<char>) -> Option<ContentV> {
    match parse_record(s) {
        Some(fs) => match content_fold(fs, content_acc0()) {
            Some(acc) => content_finish(acc),
            None => None,
        },
        None => None,
    }
}

/// Decoding inverts encoding for every content whose content type is held
/// in canonical form.
pub proof fn lemma_content_round_trip(c: ContentV)
    requires
        mime_canonical(c.content_type) == Some(c.content_type),
    ensures
        parse_content(enc_content(c)) == Some(c),
{
    let fs = content_fields(c);
    assert(forall|i: int| 0 <= i < fs.len() ==> !is_special((#[trigger] fs[i]).0));
    lemma_record_round_trip(fs);
    lemma_opt_round_trip(c.body);
    lemma_opt_num_round_trip(c.length);
    match c.src {
        Some(l) => {
            assert((seq!['+'] + enc_link(l)).skip(1) =~= enc_link(l));
            lemma_link_round_trip(l);
        },
        None => {},
    }
    reveal_with_fuel(content_fold, 6);
    assert(fs.skip(1).skip(1) =~= fs.skip(2));
    assert(fs.skip(2).skip(1) =~= fs.skip(3));
    assert(fs.skip(3).skip(1) =~= fs.skip(4));
    assert(fs.skip(4).len() == 0);
    assert(content_fold(fs, content_acc0()) == Some(
        ContentAcc {
            body: c.body,
            content_type: Some(c.content_type),
            length: c.length,
            src: c.src,
        },
    ));
}

pub proof fn lemma_enc_content_len(c: ContentV)
    ensures
        enc_content(c).len() >= 2,
{
    let fs = content_fields(c);
    let parts = fs.map_values(|kv: (char, Seq<char>)| field_rep(kv.0, kv.1));
    lemma_join_first_len(parts, ';');
    assert(parts[0] == field_rep('b', opt_rep(c.body)));
}

// ------------------------------------------------------------------
// Lists and optional columns.
// ------------------------------------------------------------------

/// The column a list of links is stored as: escaped records joined by `|`,
/// the empty list as the empty column.
pub open spec fn enc_links(ls: Seq<LinkV>) -> Seq<char> {
    if ls.len() == 0 {
        Seq::empty()
    } else {
        join_with(ls.map_values(|l: LinkV| escape(enc_link(l))), '|')
    }
}

pub open spec fn parse_link_elem(p: Seq<char>) -> Option<LinkV> {
    match unescape(p) {
        Some(u) => parse_link(u),
        None => None,
    }
}

pub open spec fn parse_links_list(parts: Seq<Seq<char>>) -> Option<Seq<LinkV>>
    decreases parts.len(),
{
    if parts.len() == 0 {
        Some(Seq::empty())
    } else {
        match parse_link_elem(parts[0]) {
            Some(l) => match parse_links_list(parts.skip(1)) {
                Some(r) => Some(seq![l] + r),
                None => None,
            },
            None => None,
        }
    }
}

/// The links a stored column stands for, if any.
pub open spec fn parse_links(s: Seq<char>) -> Option<Seq<LinkV>> {
    if s.len() == 0 {
        Some(Seq::empty())
    } else {
        parse_links_list(split_on(s, '|'))
    }
}

/// The column a list of persons is stored as.
pub open spec fn enc_persons(ps: Seq<PersonV>) -> Seq<char> {
    if ps.len() == 0 {
        Seq::empty()
    } else {
        join_with(ps.map_values(|p: PersonV| escape(enc_person(p))), '|')
    }
}

pub open spec fn parse_person_elem(p: Seq<char>) -> Option<PersonV> {
    match unescape(p) {
        Some(u) => parse_person(u),
        None => None,
    }
}

pub open spec fn parse_persons_list(parts: Seq<Seq<char>>) -> Option<Seq<PersonV>>
    decreases parts.len(),
{
    if parts.len() == 0 {
        Some(Seq::empty())
    } else {
        match parse_person_elem(parts[0]) {
            Some(p) => match parse_persons_list(parts.skip(1)) {
                Some(r) => Some(seq![p] + r),
                None => None,
            },
            None => None,
        }
    }
}

/// The persons a stored column stands for, if any.
pub open spec fn parse_persons(s: Seq<char>) -> Option<Seq<PersonV>> {
    if s.len() == 0 {
        Some(Seq::empty())
    } else {
        parse_persons_list(split_on(s, '|'))
    }
}

/// The column an optional text is stored as: absence as the empty column.
pub open spec fn enc_opt_text(o: Option<TextV>) -> Seq<char> {
    match o {
        Some(t) => enc_text(t),
        None => Seq::empty(),
    }
}

pub open spec fn parse_opt_text(s: Seq<char>) -> Option<Option<TextV>> {
    if s.len() == 0 {
        Some(None)
    } else {
        match parse_text(s) {
            Some(t) => Some(Some(t)),
            None => None,
        }
    }
}

/// The column an optional content is stored as.
pub open spec fn enc_opt_content(o: Option<ContentV>) -> Seq<char> {
    match o {
        Some(c) => enc_content(c),
        None => Seq::empty(),
    }
}

pub open spec fn parse_opt_content(s: Seq<char>) -> Option<Option<ContentV>> {
    if s.len() == 0 {
        Some(None)
    } else {
        match parse_content(s) {
            Some(c) => Some(Some(c)),
            None => None,
        }
    }
}

/// Decoding inverts encoding for every list of links.
pub proof fn lemma_links_round_trip(ls: Seq<LinkV>)
    ensures
        parse_links(enc_links(ls)) == Some(ls),
{
    if ls.len() > 0 {
        let parts = ls.map_values(|l: LinkV| escape(enc_link(l)));
        assert forall|i: int| 0 <= i < parts.len() implies !(#[trigger] parts[i]).contains('|') by {
            lemma_escape_no_sep(enc_link(ls[i]));
        }
        lemma_split_join(parts, '|');
        lemma_join_first_len(parts, '|');
        lemma_enc_link_len(ls[0]);
        lemma_escape_len(enc_link(ls[0]));
        assert(enc_links(ls).len() >= 2);
        lemma_parse_links_map(ls);
    }
}

proof fn lemma_parse_links_map(ls: Seq<LinkV>)
    ensures
        parse_links_list(ls.map_values(|l: LinkV| escape(enc_link(l)))) == Some(ls),
    decreases ls.len(),
{
    let parts = ls.map_values(|l: LinkV| escape(enc_link(l)));
    if ls.len() == 0 {
        assert(Seq::<LinkV>::empty() =~= ls);
    } else {
        lemma_unescape_escape(enc_link(ls[0]));
        lemma_link_round_trip(ls[0]);
        lemma_parse_links_map(ls.skip(1));
        assert(parts.skip(1) =~= ls.skip(1).map_values(|l: LinkV| escape(enc_link(l))));
        assert(seq![ls[0]] + ls.skip(1) =~= ls);
    }
}

/// Decoding inverts encoding for every list of persons.
pub proof fn lemma_persons_round_trip(ps: Seq<PersonV>)
    ensures
        parse_persons(enc_persons(ps)) == Some(ps),
{
    if ps.len() > 0 {
        let parts = ps.map_values(|p: PersonV| escape(enc_person(p)));
        assert forall|i: int| 0 <= i < parts.len() implies !(#[trigger] parts[i]).contains('|') by {
            lemma_escape_no_sep(enc_person(ps[i]));
        }
        lemma_split_join(parts, '|');
        lemma_join_first_len(parts, '|');
        lemma_enc_person_len(ps[0]);
        lemma_escape_len(enc_person(ps[0]));
        assert(enc_persons(ps).len() >= 2);
        lemma_parse_persons_map(ps);
    }
}

proof fn lemma_parse_persons_map(ps: Seq<PersonV>)
    ensures
        parse_persons_list(ps.map_values(|p: PersonV| escape(enc_person(p)))) == Some(ps),
    decreases ps.len(),
{
    let parts = ps.map_values(|p: PersonV| escape(enc_person(p)));
    if ps.len() == 0 {
        assert(Seq::<PersonV>::empty() =~= ps);
    } else {
        lemma_unescape_escape(enc_person(ps[0]));
        lemma_person_round_trip(ps[0]);
        lemma_parse_persons_map(ps.skip(1));
        assert(parts.skip(1) =~= ps.skip(1).map_values(|p: PersonV| escape(enc_person(p))));
        assert(seq![ps[0]] + ps.skip(1) =~= ps);
    }
}

/// Decoding inverts encoding for an optional text column, absent or present.
pub proof fn lemma_opt_text_round_trip(o: Option<TextV>)
    requires
        match o {
            Some(t) => mime_canonical(t.content_type) == Some(t.content_type),
            None => true,
        },
    ensures
        parse_opt_text(enc_opt_text(o)) == Some(o),
{
    match o {
        Some(t) => {
            lemma_enc_text_len(t);
            lemma_text_round_trip(t);
        },
        None => {},
    }
}

/// Decoding inverts encoding for an optional content column.
pub proof fn lemma_opt_content_round_trip(o: Option<ContentV>)
    requires
        match o {
            Some(c) => mime_canonical(c.content_type) == Some(c.content_type),
            None => true,
        },
    ensures
        parse_opt_content(enc_opt_content(o)) == Some(o),
{
    match o {
        Some(c) => {
            lemma_enc_content_len(c);
            lemma_content_round_trip(c);
        },
        None => {},
    }
}

// ------------------------------------------------------------------
// Executable encoding.
// ------------------------------------------------------------------

pub open spec fn opt_media_view(o: Option<MediaType>) -> Option<Seq<char>> {
    match o {
        Some(m) => Some(m@),
        None => None,
    }
}

pub open spec fn opt_link_view(o: Option<Link>) -> Option<LinkV> {
    match o {
        Some(l) => Some(l@),
        None => None,
    }
}

fn opt_rep_chars(o: &Option<String>) -> (r: Vec<char>)
    ensures
        r@ == opt_rep(opt_view(*o)),
{
    match o {
        Some(s) => {
            let mut v: Vec<char> = Vec::new();
            v.push('+');
            let mut cs = str_to_chars(s.as_str());
            v.append(&mut cs);
            proof {
                assert(Seq::<char>::empty().push('+') + s@ =~= seq!['+'] + s@);
            }
            v
        },
        None => {
            let mut v: Vec<char> = Vec::new();
            v.push('-');
            proof {
                assert(Seq::<char>::empty().push('-') =~= seq!['-']);
            }
            v
        },
    }
}

fn opt_num_rep_chars(o: &Option<u64>) -> (r: Vec<char>)
    ensures
        r@ == opt_num_rep(*o),
{
    match o {
        Some(n) => {
            let mut v: Vec<char> = Vec::new();
            v.push('+');
            let mut cs = u64_to_chars(*n);
            v.append(&mut cs);
            proof {
                assert(Seq::<char>::empty().push('+') + dec_rep(*n as nat) =~= seq!['+'] + dec_rep(
                    *n as nat,
                ));
            }
            v
        },
        None => {
            let mut v: Vec<char> = Vec::new();
            v.push('-');
            proof {
                assert(Seq::<char>::empty().push('-') =~= seq!['-']);
            }
            v
        },
    }
}

fn encode_link_chars(l: &Link) -> (r: Vec<char>)
    ensures
        r@ == enc_link(l@),
{
    let mut fields: Vec<(char, Vec<char>)> = Vec::new();
    fields.push(('h', str_to_chars(l.href.as_str())));
    fields.push(('r', opt_rep_chars(&l.rel)));
    fields.push(('m', opt_rep_chars(&l.media_type)));
    fields.push(('l', opt_rep_chars(&l.href_lang)));
    fields.push(('t', opt_rep_chars(&l.title)));
    fields.push(('n', opt_num_rep_chars(&l.length)));
    proof {
        assert(field_views(fields@) =~= link_fields(l@));
    }
    record_from_fields(&fields)
}

fn encode_person_chars(p: &Person) -> (r: Vec<char>)
    ensures
        r@ == enc_person(p@),
{
    let mut fields: Vec<(char, Vec<char>)> = Vec::new();
    fields.push(('n', str_to_chars(p.name.as_str())));
    fields.push(('u', opt_rep_chars(&p.uri)));
    fields.push(('e', opt_rep_chars(&p.email)));
    proof {
        assert(field_views(fields@) =~= person_fields(p@));
    }
    record_from_fields(&fields)
}

fn encode_text_chars(t: &Text) -> (r: Vec<char>)
    ensures
        r@ == enc_text(t@),
{
    let mut fields: Vec<(char, Vec<char>)> = Vec::new();
    fields.push(('m', str_to_chars(t.content_type.as_str())));
    fields.push(('s', opt_rep_chars(&t.src)));
    fields.push(('c', str_to_chars(t.content.as_str())));
    proof {
        assert(field_views(fields@) =~= text_fields(t@));
    }
    record_from_fields(&fields)
}

fn opt_link_rep_chars(o: &Option<Link>) -> (r: Vec<char>)
    ensures
        r@ == opt_link_rep(opt_link_view(*o)),
{
    match o {
        Some(l) => {
            let mut v: Vec<char> = Vec::new();
            v.push('+');
            let mut cs = encode_link_chars(l);
            v.append(&mut cs);
            proof {
                assert(Seq::<char>::empty().push('+') + enc_link(l@) =~= seq!['+'] + enc_link(l@));
            }
            v
        },
        None => {
            let mut v: Vec<char> = Vec::new();
            v.push('-');
            proof {
                assert(Seq::<char>::empty().push('-') =~= seq!['-']);
            }
            v
        },
    }
}

fn encode_content_chars(c: &Content) -> (r: Vec<char>)
    ensures
        r@ == enc_content(c@),
{
    let mut fields: Vec<(char, Vec<char>)> = Vec::new();
    fields.push(('b', opt_rep_chars(&c.body)));
    fields.push(('m', str_to_chars(c.content_type.as_str())));
    fields.push(('n', opt_num_rep_chars(&c.length)));
    fields.push(('s', opt_link_rep_chars(&c.src)));
    proof {
        assert(field_views(fields@) =~= content_fields(c@));
    }
    record_from_fields(&fields)
}

/// The column a list of links is stored as.
pub fn encode_links(links: &Vec<Link>) -> (r: String)
    ensures
        r@ == enc_links(links_view(links@)),
{
    let lviews = Ghost(links_view(links@));
    let mut out: Vec<char> = Vec::new();
    let mut i: usize = 0;
    proof {
        assert(lviews@.take(0).map_values(|l: LinkV| escape(enc_link(l)))
            =~= Seq::<Seq<char>>::empty());
    }
    while i < links.len()
        invariant
            i <= links.len(),
            lviews@ == links_view(links@),
            links@.len() == lviews@.len(),
            out@ == join_with(lviews@.take(i as int).map_values(|l: LinkV| escape(enc_link(l))), '|'),
        decreases links.len() - i,
    {
        let ghost parts = lviews@.take(i as int).map_values(|l: LinkV| escape(enc_link(l)));
        proof {
            assert(lviews@[i as int] == links@[i as int]@);
            assert(lviews@.take(i as int + 1).map_values(|l: LinkV| escape(enc_link(l)))
                =~= parts.push(escape(enc_link(links@[i as int]@))));
            lemma_join_push(parts, escape(enc_link(links@[i as int]@)), '|');
            assert(parts.len() == i);
        }
        if i > 0 {
            out.push('|');
        }
        let rec = encode_link_chars(&links[i]);
        push_escaped(&mut out, &rec);
        i = i + 1;
    }
    proof {
        assert(lviews@.take(links@.len() as int) =~= lviews@);
        if links@.len() == 0 {
            assert(out@ =~= enc_links(lviews@));
        }
    }
    chars_to_string(&out)
}

/// The column a list of persons is stored as.
pub fn encode_persons(persons: &Vec<Person>) -> (r: String)
    ensures
        r@ == enc_persons(persons_view(persons@)),
{
    let pviews = Ghost(persons_view(persons@));
    let mut out: Vec<char> = Vec::new();
    let mut i: usize = 0;
    proof {
        assert(pviews@.take(0).map_values(|p: PersonV| escape(enc_person(p)))
            =~= Seq::<Seq<char>>::empty());
    }
    while i < persons.len()
        invariant
            i <= persons.len(),
            pviews@ == persons_view(persons@),
            persons@.len() == pviews@.len(),
            out@ == join_with(
                pviews@.take(i as int).map_values(|p: PersonV| escape(enc_person(p))),
                '|',
            ),
        decreases persons.len() - i,
    {
        let ghost parts = pviews@.take(i as int).map_values(|p: PersonV| escape(enc_person(p)));
        proof {
            assert(pviews@[i as int] == persons@[i as int]@);
            assert(pviews@.take(i as int + 1).map_values(|p: PersonV| escape(enc_person(p)))
                =~= parts.push(escape(enc_person(persons@[i as int]@))));
            lemma_join_push(parts, escape(enc_person(persons@[i as int]@)), '|');
            assert(parts.len() == i);
        }
        if i > 0 {
            out.push('|');
        }
        let rec = encode_person_chars(&persons[i]);
        push_escaped(&mut out, &rec);
        i = i + 1;
    }
    proof {
        assert(pviews@.take(persons@.len() as int) =~= pviews@);
        if persons@.len() == 0 {
            assert(out@ =~= enc_persons(pviews@));
        }
    }
    chars_to_string(&out)
}

/// The column an optional text is stored as.
pub fn encode_opt_text(o: &Option<Text>) -> (r: String)
    ensures
        r@ == enc_opt_text(match *o {
            Some(t) => Some(t@),
            None => None,
        }),
{
    match o {
        Some(t) => {
            let cs = encode_text_chars(t);
            chars_to_string(&cs)
        },
        None => String::new(),
    }
}

/// The column an optional content is stored as.
pub fn encode_opt_content(o: &Option<Content>) -> (r: String)
    ensures
        r@ == enc_opt_content(match *o {
            Some(c) => Some(c@),
            None => None,
        }),
{
    match o {
        Some(c) => {
            let cs = encode_content_chars(c);
            chars_to_string(&cs)
        },
        None => String::new(),
    }
}

// ------------------------------------------------------------------
// Executable decoding.
// ------------------------------------------------------------------

fn parse_opt_chars(v: &Vec<char>) -> (r: Result<Option<Vec<char>>, DecodeError>)
    ensures
        match r {
            Ok(Some(x)) => parse_opt(v@) == Some(Some(x@)),
            Ok(None) => parse_opt(v@) == Some(None::<Seq<char>>),
            Err(_) => parse_opt(v@) is None,
        },
{
    if v.len() >= 1 && v[0] == '+' {
        Ok(Some(vec_skip(v, 1)))
    } else if v.len() == 1 && v[0] == '-' {
        Ok(None)
    } else {
        Err(DecodeError)
    }
}

fn parse_opt_string(v: &Vec<char>) -> (r: Result<Option<String>, DecodeError>)
    ensures
        match r {
            Ok(o) => parse_opt(v@) == Some(opt_view(o)),
            Err(_) => parse_opt(v@) is None,
        },
{
    match parse_opt_chars(v) {
        Ok(Some(x)) => Ok(Some(chars_to_string(&x))),
        Ok(None) => Ok(None),
        Err(e) => Err(e),
    }
}

fn decode_link_chars(s: &Vec<char>) -> (r: Result<Link, DecodeError>)
    ensures
        match r {
            Ok(l) => parse_link(s@) == Some(l@),
            Err(_) => parse_link(s@) is None,
        },
{
    let fs = match parse_record_chars(s) {
        Some(fs) => fs,
        None => {
            return Err(DecodeError);
        },
    };
    let ghost fields = field_views(fs@);
    let mut href: Option<String> = None;
    let mut rel: Option<String> = None;
    let mut media_type: Option<String> = None;
    let mut href_lang: Option<String> = None;
    let mut title: Option<String> = None;
    let mut length: Option<u64> = None;
    let mut i: usize = 0;
    proof {
        assert(fields.skip(0) =~= fields);
    }
    while i < fs.len()
        invariant
            i <= fs.len(),
            fields == field_views(fs@),
            fs@.len() == fields.len(),
            parse_record(s@) == Some(fields),
            link_fold(fields, link_acc0()) == link_fold(
                fields.skip(i as int),
                LinkAcc {
                    href: opt_view(href),
                    rel: opt_view(rel),
                    media_type: opt_view(media_type),
                    href_lang: opt_view(href_lang),
                    title: opt_view(title),
                    length: length,
                },
            ),
        decreases fs.len() - i,
    {
        proof {
            assert(fields.skip(i as int)[0] == fields[i as int]);
            assert(fields.skip(i as int).skip(1) =~= fields.skip(i as int + 1));
        }
        let pair = &fs[i];
        proof {
            assert(fields[i as int] == (pair.0, pair.1@));
        }
        let k = pair.0;
        if k == 'h' {
            href = Some(chars_to_string(&pair.1));
        } else if k == 'r' {
            match parse_opt_string(&pair.1) {
                Ok(o) => {
                    rel = o;
                },
                Err(e) => {
                    return Err(e);
                },
            }
        } else if k == 'm' {
            match parse_opt_string(&pair.1) {
                Ok(o) => {
                    media_type = o;
                },
                Err(e) => {
                    return Err(e);
                },
            }
        } else if k == 'l' {
            match parse_opt_string(&pair.1) {
                Ok(o) => {
                    href_lang = o;
                },
                Err(e) => {
                    return Err(e);
                },
            }
        } else if k == 't' {
            match parse_opt_string(&pair.1) {
                Ok(o) => {
                    title = o;
                },
                Err(e) => {
                    return Err(e);
                },
            }
        } else if k == 'n' {
            match parse_opt_chars(&pair.1) {
                Ok(Some(d)) => match parse_u64_chars(&d) {
                    Some(x) => {
                        length = Some(x);
                    },
                    None => {
                        return Err(DecodeError);
                    },
                },
                Ok(None) => {
                    length = None;
                },
                Err(e) => {
                    return Err(e);
                },
            }
        }
        i = i + 1;
    }
    proof {
        assert(fields.skip(fields.len() as int) =~= Seq::<(char, Seq<char>)>::empty());
    }
    match href {
        Some(h) => {
            let l = Link {
                href: h,
                rel: rel,
                media_type: media_type,
                href_lang: href_lang,
                title: title,
                length: length,
            };
            Ok(l)
        },
        None => Err(DecodeError),
    }
}

fn decode_person_chars(s: &Vec<char>) -> (r: Result<Person, DecodeError>)
    ensures
        match r {
            Ok(p) => parse_person(s@) == Some(p@),
            Err(_) => parse_person(s@) is None,
        },
{
    let fs = match parse_record_chars(s) {
        Some(fs) => fs,
        None => {
            return Err(DecodeError);
        },
    };
    let ghost fields = field_views(fs@);
    let mut name: Option<String> = None;
    let mut uri: Option<String> = None;
    let mut email: Option<String> = None;
    let mut i: usize = 0;
    proof {
        assert(fields.skip(0) =~= fields);
    }
    while i < fs.len()
        invariant
            i <= fs.len(),
            fields == field_views(fs@),
            fs@.len() == fields.len(),
            parse_record(s@) == Some(fields),
            person_fold(fields, person_acc0()) == person_fold(
                fields.skip(i as int),
                PersonAcc { name: opt_view(name), uri: opt_view(uri), email: opt_view(email) },
            ),
        decreases fs.len() - i,
    {
        proof {
            assert(fields.skip(i as int)[0] == fields[i as int]);
            assert(fields.skip(i as int).skip(1) =~= fields.skip(i as int + 1));
        }
        let pair = &fs[i];
        proof {
            assert(fields[i as int] == (pair.0, pair.1@));
        }
        let k = pair.0;
        if k == 'n' {
            name = Some(chars_to_string(&pair.1));
        } else if k == 'u' {
            match parse_opt_string(&pair.1) {
                Ok(o) => {
                    uri = o;
                },
                Err(e) => {
                    return Err(e);
                },
            }
        } else if k == 'e' {
            match parse_opt_string(&pair.1) {
                Ok(o) => {
                    email = o;
                },
                Err(e) => {
                    return Err(e);
                },
            }
        }
        i = i + 1;
    }
    proof {
        assert(fields.skip(fields.len() as int) =~= Seq::<(char, Seq<char>)>::empty());
    }
    match name {
        Some(n) => Ok(Person { name: n, uri: uri, email: email }),
        None => Err(DecodeError),
    }
}

fn decode_text_chars(s: &Vec<char>) -> (r: Result<Text, DecodeError>)
    ensures
        match r {
            Ok(t) => parse_text(s@) == Some(t@) && t.wf(),
            Err(_) => parse_text(s@) is None,
        },
{
    let fs = match parse_record_chars(s) {
        Some(fs) => fs,
        None => {
            return Err(DecodeError);
        },
    };
    let ghost fields = field_views(fs@);
    let mut media: Option<MediaType> = None;
    let mut src: Option<String> = None;
    let mut content: Option<String> = None;
    let mut i: usize = 0;
    proof {
        assert(fields.skip(0) =~= fields);
    }
    while i < fs.len()
        invariant
            i <= fs.len(),
            fields == field_views(fs@),
            fs@.len() == fields.len(),
            parse_record(s@) == Some(fields),
            match media {
                Some(m) => m.wf(),
                None => true,
            },
            text_fold(fields, text_acc0()) == text_fold(
                fields.skip(i as int),
                TextAcc {
                    content_type: opt_media_view(media),
                    src: opt_view(src),
                    content: opt_view(content),
                },
            ),
        decreases fs.len() - i,
    {
        proof {
            assert(fields.skip(i as int)[0] == fields[i as int]);
            assert(fields.skip(i as int).skip(1) =~= fields.skip(i as int + 1));
        }
        let pair = &fs[i];
        proof {
            assert(fields[i as int] == (pair.0, pair.1@));
        }
        let k = pair.0;
        if k == 'm' {
            let vs = chars_to_string(&pair.1);
            match MediaType::parse(vs.as_str()) {
                Some(m) => {
                    media = Some(m);
                },
                None => {
                    return Err(DecodeError);
                },
            }
        } else if k == 's' {
            match parse_opt_string(&pair.1) {
                Ok(o) => {
                    src = o;
                },
                Err(e) => {
                    return Err(e);
                },
            }
        } else if k == 'c' {
            content = Some(chars_to_string(&pair.1));
        }
        i = i + 1;
    }
    proof {
        assert(fields.skip(fields.len() as int) =~= Seq::<(char, Seq<char>)>::empty());
    }
    match (media, content) {
        (Some(m), Some(c)) => Ok(Text { content_type: m, src: src, content: c }),
        _ => Err(DecodeError),
    }
}

fn decode_content_chars(s: &Vec<char>) -> (r: Result<Content, DecodeError>)
    ensures
        match r {
            Ok(c) => parse_content(s@) == Some(c@) && c.wf(),
            Err(_) => parse_content(s@) is None,
        },
{
    let fs = match parse_record_chars(s) {
        Some(fs) => fs,
        None => {
            return Err(DecodeError);
        },
    };
    let ghost fields = field_views(fs@);
    let mut body: Option<String> = None;
    let mut media: Option<MediaType> = None;
    let mut length: Option<u64> = None;
    let mut src: Option<Link> = None;
    let mut i: usize = 0;
    proof {
        assert(fields.skip(0) =~= fields);
    }
    while i < fs.len()
        invariant
            i <= fs.len(),
            fields == field_views(fs@),
            fs@.len() == fields.len(),
            parse_record(s@) == Some(fields),
            match media {
                Some(m) => m.wf(),
                None => true,
            },
            content_fold(fields, content_acc0()) == content_fold(
                fields.skip(i as int),
                ContentAcc {
                    body: opt_view(body),
                    content_type: opt_media_view(media),
                    length: length,
                    src: opt_link_view(src),
                },
            ),
        decreases fs.len() - i,
    {
        proof {
            assert(fields.skip(i as int)[0] == fields[i as int]);
            assert(fields.skip(i as int).skip(1) =~= fields.skip(i as int + 1));
        }
        let pair = &fs[i];
        proof {
            assert(fields[i as int] == (pair.0, pair.1@));
        }
        let k = pair.0;
        if k == 'b' {
            match parse_opt_string(&pair.1) {
                Ok(o) => {
                    body = o;
                },
                Err(e) => {
                    return Err(e);
                },
            }
        } else if k == 'm' {
            let vs = chars_to_string(&pair.1);
            match MediaType::parse(vs.as_str()) {
                Some(m) => {
                    media = Some(m);
                },
                None => {
                    return Err(DecodeError);
                },
            }
        } else if k == 'n' {
            match parse_opt_chars(&pair.1) {
                Ok(Some(d)) => match parse_u64_chars(&d) {
                    Some(x) => {
                        length = Some(x);
                    },
                    None => {
                        return Err(DecodeError);
                    },
                },
                Ok(None) => {
                    length = None;
                },
                Err(e) => {
                    return Err(e);
                },
            }
        } else if k == 's' {
            match parse_opt_chars(&pair.1) {
                Ok(Some(u)) => match decode_link_chars(&u) {
                    Ok(l) => {
                        src = Some(l);
                    },
                    Err(e) => {
                        return Err(e);
                    },
                },
                Ok(None) => {
                    src = None;
                },
                Err(e) => {
                    return Err(e);
                },
            }
        }
        i = i + 1;
    }
    proof {
        assert(fields.skip(fields.len() as int) =~= Seq::<(char, Seq<char>)>::empty());
    }
    match media {
        Some(m) => Ok(Content { body: body, content_type: m, length: length, src: src }),
        None => Err(DecodeError),
    }
}

/// The links a stored column holds; `DecodeError` exactly where the column
/// is malformed.
pub fn decode_links(s: &str) -> (r: Result<Vec<Link>, DecodeError>)
    ensures
        match r {
            Ok(v) => parse_links(s@) == Some(links_view(v@)),
            Err(_) => parse_links(s@) is None,
        },
{
    let cs = str_to_chars(s);
    if cs.len() == 0 {
        let out: Vec<Link> = Vec::new();
        proof {
            assert(links_view(out@) =~= Seq::<LinkV>::empty());
        }
        return Ok(out);
    }
    let parts = split_chars(&cs, '|');
    let ghost pviews = views_of(parts@);
    let mut out: Vec<Link> = Vec::new();
    let mut i: usize = 0;
    proof {
        assert(pviews.skip(0) =~= pviews);
        assert(links_view(out@) =~= Seq::<LinkV>::empty());
    }
    while i < parts.len()
        invariant
            i <= parts.len(),
            pviews == views_of(parts@),
            parts@.len() == pviews.len(),
            parse_links(s@) == parse_links_list(pviews),
            parse_links_list(pviews) == (match parse_links_list(pviews.skip(i as int)) {
                Some(rest) => Some(links_view(out@) + rest),
                None => None::<Seq<LinkV>>,
            }),
        decreases parts.len() - i,
    {
        proof {
            assert(pviews.skip(i as int)[0] == pviews[i as int]);
            assert(pviews[i as int] == parts@[i as int]@);
            assert(pviews.skip(i as int).skip(1) =~= pviews.skip(i as int + 1));
        }
        let part = &parts[i];
        match unescape_chars(part) {
            Some(u) => match decode_link_chars(&u) {
                Ok(l) => {
                    proof {
                        assert(parse_link_elem(pviews[i as int]) == Some(l@));
                        if parse_links_list(pviews.skip(i as int + 1)) is Some {
                            let rest = parse_links_list(pviews.skip(i as int + 1))->0;
                            assert(links_view(out@.push(l)) =~= links_view(out@).push(l@));
                            assert(links_view(out@) + (seq![l@] + rest) =~= links_view(out@).push(
                                l@,
                            ) + rest);
                        } else {
                            assert(links_view(out@.push(l)) =~= links_view(out@).push(l@));
                        }
                    }
                    out.push(l);
                    i = i + 1;
                },
                Err(e) => {
                    proof {
                        assert(parse_link_elem(pviews[i as int]) is None);
                    }
                    return Err(e);
                },
            },
            None => {
                proof {
                    assert(parse_link_elem(pviews[i as int]) is None);
                }
                return Err(DecodeError);
            },
        }
    }
    proof {
        assert(pviews.skip(pviews.len() as int) =~= Seq::<Seq<char>>::empty());
        if parse_links_list(pviews) is Some {
            let whole = parse_links_list(pviews)->0;
            assert(links_view(out@) + Seq::<LinkV>::empty() =~= links_view(out@));
        }
    }
    Ok(out)
}

/// The persons a stored column holds.
pub fn decode_persons(s: &str) -> (r: Result<Vec<Person>, DecodeError>)
    ensures
        match r {
            Ok(v) => parse_persons(s@) == Some(persons_view(v@)),
            Err(_) => parse_persons(s@) is None,
        },
{
    let cs = str_to_chars(s);
    if cs.len() == 0 {
        let out: Vec<Person> = Vec::new();
        proof {
            assert(persons_view(out@) =~= Seq::<PersonV>::empty());
        }
        return Ok(out);
    }
    let parts = split_chars(&cs, '|');
    let ghost pviews = views_of(parts@);
    let mut out: Vec<Person> = Vec::new();
    let mut i: usize = 0;
    proof {
        assert(pviews.skip(0) =~= pviews);
        assert(persons_view(out@) =~= Seq::<PersonV>::empty());
    }
    while i < parts.len()
        invariant
            i <= parts.len(),
            pviews == views_of(parts@),
            parts@.len() == pviews.len(),
            parse_persons(s@) == parse_persons_list(pviews),
            parse_persons_list(pviews) == (match parse_persons_list(pviews.skip(i as int)) {
                Some(rest) => Some(persons_view(out@) + rest),
                None => None::<Seq<PersonV>>,
            }),
        decreases parts.len() - i,
    {
        proof {
            assert(pviews.skip(i as int)[0] == pviews[i as int]);
            assert(pviews[i as int] == parts@[i as int]@);
            assert(pviews.skip(i as int).skip(1) =~= pviews.skip(i as int + 1));
        }
        let part = &parts[i];
        match unescape_chars(part) {
            Some(u) => match decode_person_chars(&u) {
                Ok(p) => {
                    proof {
                        assert(parse_person_elem(pviews[i as int]) == Some(p@));
                        if parse_persons_list(pviews.skip(i as int + 1)) is Some {
                            let rest = parse_persons_list(pviews.skip(i as int + 1))->0;
                            assert(persons_view(out@.push(p)) =~= persons_view(out@).push(p@));
                            assert(persons_view(out@) + (seq![p@] + rest) =~= persons_view(
                                out@,
                            ).push(p@) + rest);
                        } else {
                            assert(persons_view(out@.push(p)) =~= persons_view(out@).push(p@));
                        }
                    }
                    out.push(p);
                    i = i + 1;
                },
                Err(e) => {
                    proof {
                        assert(parse_person_elem(pviews[i as int]) is None);
                    }
                    return Err(e);
                },
            },
            None => {
                proof {
                    assert(parse_person_elem(pviews[i as int]) is None);
                }
                return Err(DecodeError);
            },
        }
    }
    proof {
        assert(pviews.skip(pviews.len() as int) =~= Seq::<Seq<char>>::empty());
        if parse_persons_list(pviews) is Some {
            let whole = parse_persons_list(pviews)->0;
            assert(persons_view(out@) + Seq::<PersonV>::empty() =~= persons_view(out@));
        }
    }
    Ok(out)
}

/// The optional text a stored column holds: the empty column is absence.
pub fn decode_opt_text(s: &str) -> (r: Result<Option<Text>, DecodeError>)
    ensures
        match r {
            Ok(Some(t)) => parse_opt_text(s@) == Some(Some(t@)) && t.wf(),
            Ok(None) => parse_opt_text(s@) == Some(None::<TextV>),
            Err(_) => parse_opt_text(s@) is None,
        },
{
    let cs = str_to_chars(s);
    if cs.len() == 0 {
        return Ok(None);
    }
    match decode_text_chars(&cs) {
        Ok(t) => Ok(Some(t)),
        Err(e) => Err(e),
    }
}

/// The optional content a stored column holds.
pub fn decode_opt_content(s: &str) -> (r: Result<Option<Content>, DecodeError>)
    ensures
        match r {
            Ok(Some(c)) => parse_opt_content(s@) == Some(Some(c@)) && c.wf(),
            Ok(None) => parse_opt_content(s@) == Some(None::<ContentV>),
            Err(_) => parse_opt_content(s@) is None,
        },
{
    let cs = str_to_chars(s);
    if cs.len() == 0 {
        return Ok(None);
    }
    match decode_content_chars(&cs) {
        Ok(c) => Ok(Some(c)),
        Err(e) => Err(e),
    }
}

} // verus!
