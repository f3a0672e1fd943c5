//! Giveaways of gleam.io: the code that names one, the record of one, and the
//! reading of a giveaway page into a record.
use crate::decode::decode_html;
use crate::decode::decoded_html;
use crate::decode::replace_all;
use crate::decode::replaced;
use crate::json::json_document;
use crate::json::views;
use crate::json::Json;
use crate::json::JsonView;
use crate::number::parse_u64;
use crate::number::parsed_u64;
use crate::reply_body;
use crate::scan::between_strict;
use crate::scan::span_between_strict;
use crate::text::byte_len;
use crate::text::has_prefix;
use crate::text::split_at_char;
use crate::text::starts_with;
use crate::Error;
use crate::Reply;
use vstd::prelude::*;
use vstd::string::StrSliceExecFns;
use vstd::string::StringExecFns;

verus! {

/// Where every giveaway link begins.
pub open spec fn platform_root() -> Seq<char> {
    "https://gleam.io/"@
}

/// Where a link of the longer form begins.
pub open spec fn competition_root() -> Seq<char> {
    "https://gleam.io/competitions/"@
}

/// How many characters the code of a giveaway has.
pub const CODE_LEN: usize = 5;

/// How a link names a giveaway.
#[derive(Debug, Clone, Copy)]
pub enum LinkShape<'a> {
    /// `https://gleam.io/competitions/`, the code, and two characters more.
    Competition(&'a str),
    /// `https://gleam.io/`, the code, a `/`, and whatever follows.
    Direct(&'a str),
    /// No giveaway link.
    Unrecognized,
}

/// `url` has the longer form: [`competition_root`], the code, and two
/// characters more.
pub open spec fn is_competition_link(url: Seq<char>) -> bool {
    has_prefix(url, competition_root()) && url.len() == competition_root().len() + CODE_LEN + 2
}

/// `url` has the shorter form: [`platform_root`], the code, and a `/`.
pub open spec fn is_direct_link(url: Seq<char>) -> bool {
    &&& has_prefix(url, platform_root())
    &&& url.len() > platform_root().len() + CODE_LEN
    &&& url[platform_root().len() + CODE_LEN] == '/'
}

/// The code that stands in `url` behind `root`.
pub open spec fn code_behind(url: Seq<char>, root: Seq<char>) -> Seq<char> {
    url.subrange(root.len() as int, root.len() + CODE_LEN)
}

/// The code of the giveaway that `url` names, if it names one. A link of the
/// longer form is read as one.
pub open spec fn gleam_id(url: Seq<char>) -> Option<Seq<char>> {
    if is_competition_link(url) {
        Some(code_behind(url, competition_root()))
    } else if is_direct_link(url) {
        Some(code_behind(url, platform_root()))
    } else {
        None
    }
}

/// The one link under which the giveaway with code `id` is kept.
pub open spec fn canonical_url(id: Seq<char>) -> Seq<char> {
    platform_root() + id + "/-"@
}

impl<'a> LinkShape<'a> {
    /// The code that the link names, if it names one.
    pub open spec fn code(self) -> Option<Seq<char>> {
        match self {
            LinkShape::Competition(code) => Some(code@),
            LinkShape::Direct(code) => Some(code@),
            LinkShape::Unrecognized => None,
        }
    }

    /// The code that the link names, if it names one.
    pub fn id(self) -> (id: Option<&'a str>)
        ensures
            match id {
                Some(id) => self.code() == Some(id@),
                None => self.code() is None,
            },
    {
        match self {
            LinkShape::Competition(code) => Some(code),
            LinkShape::Direct(code) => Some(code),
            LinkShape::Unrecognized => None,
        }
    }
}

/// The two roots, character by character.
pub proof fn lemma_roots()
    ensures
        platform_root().len() == 17,
        competition_root().len() == 30,
        competition_root().take(17) == platform_root(),
        competition_root()[22] == 't',
        "/-"@.len() == 2,
        "/-"@[0] == '/',
        "/-"@[1] == '-',
{
    reveal_strlit("https://gleam.io/");
    reveal_strlit("https://gleam.io/competitions/");
    reveal_strlit("/-");
    assert(competition_root().take(17) =~= platform_root());
}

/// Tells which form `url` has, and takes the code out of it.
pub fn classify<'a>(url: &'a str) -> (shape: LinkShape<'a>)
    ensures
        shape.code() == gleam_id(url@),
        shape is Competition <==> is_competition_link(url@),
        shape is Direct <==> !is_competition_link(url@) && is_direct_link(url@),
{
    proof {
        lemma_roots();
    }
    if starts_with(url, "https://gleam.io/competitions/") {
        let ghost root = competition_root().len() as int;
        let rest = split_at_char(url, byte_len("https://gleam.io/competitions/"), Ghost(root)).1;
        if rest.unicode_len() == CODE_LEN + 2 {
            let code = rest.substring_char(0, CODE_LEN);
            assert(code@ =~= code_behind(url@, competition_root()));
            return LinkShape::Competition(code);
        }
    }
    if starts_with(url, "https://gleam.io/") {
        let ghost root = platform_root().len() as int;
        let rest = split_at_char(url, byte_len("https://gleam.io/"), Ghost(root)).1;
        if rest.unicode_len() > CODE_LEN && rest.get_char(CODE_LEN) == '/' {
            let code = rest.substring_char(0, CODE_LEN);
            assert(code@ =~= code_behind(url@, platform_root()));
            return LinkShape::Direct(code);
        }
    }
    LinkShape::Unrecognized
}

/// Extract the id of the giveaway from an url.
pub fn get_gleam_id(url: &str) -> (id: Option<&str>)
    ensures
        match id {
            Some(id) => gleam_id(url@) == Some(id@),
            None => gleam_id(url@) is None,
        },
{
    classify(url).id()
}

/// A link of either form names the code that was put into it: in the longer
/// form the two characters behind the code do not matter, and in the shorter
/// form nothing that follows the `/` behind it does.
pub proof fn law_shape_invariant(code: Seq<char>, tail: Seq<char>, slug: Seq<char>)
    requires
        code.len() == CODE_LEN,
        tail.len() == 2,
    ensures
        gleam_id(competition_root() + code + tail) == Some(code),
        gleam_id(platform_root() + code + seq!['/'] + slug) == Some(code),
{
    lemma_roots();
    let long = competition_root() + code + tail;
    assert(long.take(30) =~= competition_root());
    assert(long.subrange(30, 35) =~= code);
    let short = platform_root() + code + seq!['/'] + slug;
    assert(short.take(17) =~= platform_root());
    assert(short.subrange(17, 22) =~= code);
    assert(short[22] == '/');
    if is_competition_link(short) {
        assert(short.take(30)[22] == competition_root()[22]);
    }
}

/// The link under which the giveaway that `url` names is kept, if it names
/// one.
pub open spec fn normalized(url: Seq<char>) -> Option<Seq<char>> {
    match gleam_id(url) {
        Some(id) => Some(canonical_url(id)),
        None => None,
    }
}

/// A link under which a giveaway is kept is kept under itself.
pub proof fn law_normalized_once(url: Seq<char>)
    requires
        normalized(url) is Some,
    ensures
        normalized(normalized(url)->0) == normalized(url),
{
    law_round_trip(url);
}

/// The link under which a giveaway is kept names that giveaway: the code of a
/// link, put into its canonical link, is read back from it.
pub proof fn law_round_trip(url: Seq<char>)
    requires
        gleam_id(url) is Some,
    ensures
        gleam_id(canonical_url(gleam_id(url)->0)) == gleam_id(url),
{
    lemma_roots();
    let id = gleam_id(url)->0;
    assert(id.len() == CODE_LEN);
    lemma_canonical_url(id);
}

/// The canonical link of a code has the shorter form.
pub proof fn lemma_canonical_url(id: Seq<char>)
    requires
        id.len() == CODE_LEN,
    ensures
        is_direct_link(canonical_url(id)),
        !is_competition_link(canonical_url(id)),
        gleam_id(canonical_url(id)) == Some(id),
{
    lemma_roots();
    let link = canonical_url(id);
    assert(link.take(17) =~= platform_root());
    assert(link.subrange(17, 22) =~= id);
    assert(link[22] == "/-"@[0]);
}

/// A simple struct used to store informations about a gleam.io giveaway.
#[derive(Debug, Clone, PartialEq, Eq)]
pub struct Giveaway {
    /// The code of the giveaway: [`CODE_LEN`] characters, in a record that
    /// was read from a page.
    pub gleam_id: String,
    /// How many entries were made, where the page says so.
    pub entry_count: Option<u64>,
    /// The ways to enter, in the order of the page: the kind of each and what
    /// it is worth.
    pub entry_methods: Vec<(String, u64)>,
    /// When the giveaway starts, in seconds since 1970.
    pub start_date: u64,
    /// When the giveaway ends, in seconds since 1970. Nothing holds it to
    /// `start_date`.
    pub end_date: u64,
    /// When the record was read, in seconds since 1970.
    pub update_date: u64,
    /// The name, cleaned of markup.
    pub name: String,
    /// The description, cleaned of markup.
    pub description: String,
}

/// What a [`Giveaway`] holds.
pub struct Record {
    pub gleam_id: Seq<char>,
    pub entry_count: Option<u64>,
    pub entry_methods: Seq<(Seq<char>, u64)>,
    pub start_date: u64,
    pub end_date: u64,
    pub update_date: u64,
    pub name: Seq<char>,
    pub description: Seq<char>,
}

/// The ways to enter and what each is worth, as texts and numbers.
pub open spec fn methods(entries: Seq<(String, u64)>) -> Seq<(Seq<char>, u64)> {
    Seq::new(entries.len(), |i: int| (entries[i].0@, entries[i].1))
}

/// What each of a row of giveaways holds.
pub open spec fn records(giveaways: Seq<Giveaway>) -> Seq<Record> {
    Seq::new(giveaways.len(), |i: int| giveaways[i]@)
}

/// The texts of a row of links.
pub open spec fn link_texts(urls: Seq<&str>) -> Seq<Seq<char>> {
    Seq::new(urls.len(), |i: int| urls[i]@)
}

impl View for Giveaway {
    type V = Record;

    open spec fn view(&self) -> Record {
        Record {
            gleam_id: self.gleam_id@,
            entry_count: self.entry_count,
            entry_methods: methods(self.entry_methods@),
            start_date: self.start_date,
            end_date: self.end_date,
            update_date: self.update_date,
            name: self.name@,
            description: self.description@,
        }
    }
}

/// What a giveaway page must hold and a page may lack.
#[derive(Debug, Clone, Copy, PartialEq, Eq, Structural)]
pub enum Field {
    /// The object `campaign`.
    Campaign,
    /// The object `incentive`.
    Incentive,
    /// The array `entry_methods`.
    EntryMethods,
    /// The string `entry_type` of a way to enter.
    EntryType,
    /// The number `worth` of a way to enter.
    Worth,
    /// The string `description` of the incentive.
    Description,
    /// The string `name` of the campaign.
    Name,
    /// The number `starts_at` of the campaign.
    StartsAt,
    /// The number `ends_at` of the campaign.
    EndsAt,
}

/// The sum of what the ways to enter are worth.
pub open spec fn total_worth(entries: Seq<(Seq<char>, u64)>) -> nat
    decreases entries.len(),
{
    if entries.len() == 0 {
        0
    } else {
        total_worth(entries.drop_last()) + entries.last().1 as nat
    }
}

/// What one item of `entry_methods` says: the kind of a way to enter and what
/// it is worth.
pub open spec fn entry_of(item: JsonView) -> Result<(Seq<char>, u64), Field> {
    match item.text_at("entry_type"@) {
        Some(kind) => match item.number_at("worth"@) {
            Some(worth) => Ok((kind, worth)),
            None => Err(Field::Worth),
        },
        None => Err(Field::EntryType),
    }
}

/// What the items of `entry_methods` say, in their order, or what the first
/// of them that lacks something lacks.
pub open spec fn entries_of(items: Seq<JsonView>) -> Result<Seq<(Seq<char>, u64)>, Field>
    decreases items.len(),
{
    if items.len() == 0 {
        Ok(Seq::empty())
    } else {
        match entry_of(items[0]) {
            Ok(entry) => match entries_of(items.drop_first()) {
                Ok(entries) => Ok(seq![entry] + entries),
                Err(field) => Err(field),
            },
            Err(field) => Err(field),
        }
    }
}

/// The member of `document` under `key`, where it is an object.
pub open spec fn object_at(document: JsonView, key: Seq<char>) -> Option<JsonView> {
    match document.member(key) {
        Some(member) => if member is Object {
            Some(member)
        } else {
            None
        },
        None => None,
    }
}

/// The record that the payload of a giveaway page gives for the giveaway
/// `id`, read at the time `now` from a page that states `entry_count`; or the
/// first thing that the payload lacks. The name and the description are
/// cleaned of markup.
pub open spec fn record_of(id: Seq<char>, document: JsonView, entry_count: Option<u64>, now: u64)
    -> Result<Record, Field> {
    if object_at(document, "campaign"@) is None {
        Err(Field::Campaign)
    } else if object_at(document, "incentive"@) is None {
        Err(Field::Incentive)
    } else if document.items_at("entry_methods"@) is None {
        Err(Field::EntryMethods)
    } else {
        let campaign = object_at(document, "campaign"@)->0;
        let incentive = object_at(document, "incentive"@)->0;
        match entries_of(document.items_at("entry_methods"@)->0) {
            Err(field) => Err(field),
            Ok(entries) => if incentive.text_at("description"@) is None {
                Err(Field::Description)
            } else if campaign.text_at("name"@) is None {
                Err(Field::Name)
            } else if campaign.number_at("starts_at"@) is None {
                Err(Field::StartsAt)
            } else if campaign.number_at("ends_at"@) is None {
                Err(Field::EndsAt)
            } else {
                Ok(
                    Record {
                        gleam_id: id,
                        entry_count: entry_count,
                        entry_methods: entries,
                        start_date: campaign.number_at("starts_at"@)->0,
                        end_date: campaign.number_at("ends_at"@)->0,
                        update_date: now,
                        name: decoded_html(campaign.text_at("name"@)->0),
                        description: decoded_html(incentive.text_at("description"@)->0),
                    },
                )
            },
        }
    }
}

/// The payload of a giveaway page, as the page holds it: what stands between
/// the opening of the campaign's container and the end of that tag.
pub open spec fn page_payload(body: Seq<char>) -> Option<Seq<char>> {
    span_between_strict(
        body,
        "<div class='popup-blocks-container' ng-init='initCampaign("@,
        ")'>"@,
    )
}

/// The document that a giveaway page carries: its payload, with each `&quot;`
/// turned back into a quote, read as JSON.
pub open spec fn page_document(body: Seq<char>) -> Option<JsonView> {
    match page_payload(body) {
        Some(payload) => json_document(replaced(payload, "&quot;"@, "\""@)),
        None => None,
    }
}

/// The number of entries that a giveaway page states: what stands in the
/// brackets of its `initEntryCount(`, where that is there and is a number.
pub open spec fn page_entry_count(body: Seq<char>) -> Option<u64> {
    match span_between_strict(body, "initEntryCount("@, ")"@) {
        Some(count) => parsed_u64(count),
        None => None,
    }
}

/// The record that the page `body` gives for the giveaway `id`, read at the
/// time `now`: all of it or, where the page carries no document or the
/// document lacks something, none of it.
pub open spec fn parsed_page(id: Seq<char>, body: Seq<char>, now: u64) -> Result<Record, Error> {
    match page_document(body) {
        Some(document) => match record_of(id, document, page_entry_count(body), now) {
            Ok(record) => Ok(record),
            Err(_) => Err(Error::InvalidResponse),
        },
        None => Err(Error::InvalidResponse),
    }
}

/// The record that the reply to the request for the giveaway that `url` names
/// gives at the time `now`. A `url` that names no giveaway gives none,
/// whatever the reply.
pub open spec fn fetched(url: Seq<char>, reply: Reply, now: u64) -> Result<Record, Error> {
    match gleam_id(url) {
        Some(id) => match reply_body(reply) {
            Ok(body) => parsed_page(id, body, now),
            Err(error) => Err(error),
        },
        None => Err(Error::InvalidResponse),
    }
}

/// The records that the replies give for the links, each reply for the link
/// at its place, in the order of the links; a link that gives none is passed
/// over, and so is one without a reply.
pub open spec fn fetched_all(urls: Seq<Seq<char>>, replies: Seq<Reply>, now: u64) -> Seq<Record>
    decreases urls.len(),
{
    if urls.len() == 0 || replies.len() == 0 {
        Seq::empty()
    } else {
        match fetched(urls[0], replies[0], now) {
            Ok(record) => seq![record] + fetched_all(urls.drop_first(), replies.drop_first(), now),
            Err(_) => fetched_all(urls.drop_first(), replies.drop_first(), now),
        }
    }
}

/// The link under which the giveaway with the code `id` is kept.
pub fn link(id: &str) -> (url: String)
    ensures
        url@ == canonical_url(id@),
{
    let mut url = String::from_str("https://gleam.io/");
    url.append(id);
    url.append("/-");
    url
}

/// Reads what one item of `entry_methods` says.
fn read_entry(item: &Json) -> (entry: Result<(String, u64), Field>)
    ensures
        match entry {
            Ok(entry) => entry_of(item@) == Ok::<(Seq<char>, u64), Field>((entry.0@, entry.1)),
            Err(field) => entry_of(item@) == Err::<(Seq<char>, u64), Field>(field),
        },
{
    match item.str_at("entry_type") {
        Some(kind) => match item.u64_at("worth") {
            Some(worth) => Ok((String::from_str(kind), worth)),
            None => Err(Field::Worth),
        },
        None => Err(Field::EntryType),
    }
}

/// Reads what the items of `entry_methods` say.
fn read_entries(items: &Vec<Json>) -> (entries: Result<Vec<(String, u64)>, Field>)
    ensures
        match entries {
            Ok(entries) => entries_of(views(items@)) == Ok::<Seq<(Seq<char>, u64)>, Field>(
                methods(entries@),
            ),
            Err(field) => entries_of(views(items@)) == Err::<Seq<(Seq<char>, u64)>, Field>(field),
        },
{
    let mut entries: Vec<(String, u64)> = Vec::new();
    let mut i: usize = 0;
    assert(views(items@).skip(0) =~= views(items@));
    assert(methods(entries@) =~= Seq::<(Seq<char>, u64)>::empty());
    while i < items.len()
        invariant
            i <= items@.len(),
            entries_of(views(items@)) == match entries_of(views(items@).skip(i as int)) {
                Ok(rest) => Ok::<Seq<(Seq<char>, u64)>, Field>(methods(entries@) + rest),
                Err(field) => Err::<Seq<(Seq<char>, u64)>, Field>(field),
            },
        decreases items@.len() - i,
    {
        proof {
            assert(views(items@).skip(i as int)[0] == items@[i as int]@);
            assert(views(items@).skip(i as int).drop_first() =~= views(items@).skip(i + 1));
        }
        match read_entry(&items[i]) {
            Ok(entry) => {
                let ghost before = methods(entries@);
                let ghost added = (entry.0@, entry.1);
                entries.push(entry);
                proof {
                    assert(methods(entries@) =~= before.push(added));
                    match entries_of(views(items@).skip(i + 1)) {
                        Ok(rest) => {
                            assert(before + (seq![added] + rest) =~= before.push(added) + rest);
                        },
                        Err(_) => {},
                    }
                }
            },
            Err(field) => {
                return Err(field);
            },
        }
        i += 1;
    }
    proof {
        assert(views(items@).skip(i as int) =~= Seq::<JsonView>::empty());
        assert(methods(entries@) + Seq::<(Seq<char>, u64)>::empty() =~= methods(entries@));
    }
    Ok(entries)
}

/// Reads the member of `document` under `key`, where it is an object.
fn read_object<'a>(document: &'a Json, key: &str) -> (object: Option<&'a Json>)
    ensures
        match object {
            Some(object) => object_at(document@, key@) == Some(object@),
            None => object_at(document@, key@) is None,
        },
{
    match document.get(key) {
        Some(member) => if member.is_object() {
            Some(member)
        } else {
            None
        },
        None => None,
    }
}

impl Giveaway {
    /// Makes the record of the giveaway `id` from the payload of its page,
    /// or says what the payload lacks.
    pub fn from_document(id: &str, document: &Json, entry_count: Option<u64>, now: u64) -> (made:
        Result<Giveaway, Field>)
        ensures
            match made {
                Ok(giveaway) => record_of(id@, document@, entry_count, now) == Ok::<Record, Field>(
                    giveaway@,
                ),
                Err(field) => record_of(id@, document@, entry_count, now) == Err::<Record, Field>(
                    field,
                ),
            },
    {
        let campaign = match read_object(document, "campaign") {
            Some(campaign) => campaign,
            None => {
                return Err(Field::Campaign);
            },
        };
        let incentive = match read_object(document, "incentive") {
            Some(incentive) => incentive,
            None => {
                return Err(Field::Incentive);
            },
        };
        let items = match document.array_at("entry_methods") {
            Some(items) => items,
            None => {
                return Err(Field::EntryMethods);
            },
        };
        let entry_methods = match read_entries(items) {
            Ok(entries) => entries,
            Err(field) => {
                return Err(field);
            },
        };
        let description = match incentive.str_at("description") {
            Some(description) => decode_html(description),
            None => {
                return Err(Field::Description);
            },
        };
        let name = match campaign.str_at("name") {
            Some(name) => decode_html(name),
            None => {
                return Err(Field::Name);
            },
        };
        let start_date = match campaign.u64_at("starts_at") {
            Some(date) => date,
            None => {
                return Err(Field::StartsAt);
            },
        };
        let end_date = match campaign.u64_at("ends_at") {
            Some(date) => date,
            None => {
                return Err(Field::EndsAt);
            },
        };
        Ok(
            Giveaway {
                gleam_id: String::from_str(id),
                entry_count,
                entry_methods,
                start_date,
                end_date,
                update_date: now,
                name,
                description,
            },
        )
    }

    /// Reads the page of the giveaway `id` into a record. The page must
    /// carry the campaign's document, whole; the number of entries is read
    /// from elsewhere on the page and may be missing.
    pub fn parse(id: &str, body: &str, now: u64) -> (read: Result<Giveaway, Error>)
        ensures
            match read {
                Ok(giveaway) => parsed_page(id@, body@, now) == Ok::<Record, Error>(giveaway@),
                Err(error) => parsed_page(id@, body@, now) == Err::<Record, Error>(error),
            },
    {
        let payload = match between_strict(
            body,
            "<div class='popup-blocks-container' ng-init='initCampaign(",
            ")'>",
        ) {
            Some(payload) => payload,
            None => {
                return Err(Error::InvalidResponse);
            },
        };
        let text = replace_all(payload, "&quot;", "\"");
        let document = match Json::parse(text.as_str()) {
            Some(document) => document,
            None => {
                return Err(Error::InvalidResponse);
            },
        };
        let entry_count = match between_strict(body, "initEntryCount(", ")") {
            Some(count) => parse_u64(count),
            None => None,
        };
        match Giveaway::from_document(id, &document, entry_count, now) {
            Ok(giveaway) => Ok(giveaway),
            Err(_) => Err(Error::InvalidResponse),
        }
    }

    /// The address to ask for the page of the giveaway that `url` names.
    /// Where `url` names none there is nothing to ask for, and the failure is
    /// the one that [`Giveaway::fetch`] gives.
    pub fn request(url: &str) -> (address: Result<String, Error>)
        ensures
            match address {
                Ok(address) => normalized(url@) == Some(address@),
                Err(error) => normalized(url@) is None && error == Error::InvalidResponse,
            },
    {
        match get_gleam_id(url) {
            Some(id) => Ok(link(id)),
            None => Err(Error::InvalidResponse),
        }
    }

    /// Load a gleam.io page and produce a giveaway struct, from the reply to
    /// the request for [`Giveaway::request`] of `url` and the time at which the
    /// reply is read. The link kept in the record is the canonical one
    /// (`https://gleam.io/2zAsX/bitforex-speci` becomes
    /// `https://gleam.io/2zAsX/-`), so that no giveaway is kept twice.
    pub fn fetch(url: &str, reply: &Reply, now: u64) -> (read: Result<Giveaway, Error>)
        ensures
            match read {
                Ok(giveaway) => fetched(url@, *reply, now) == Ok::<Record, Error>(giveaway@),
                Err(error) => fetched(url@, *reply, now) == Err::<Record, Error>(error),
            },
    {
        let id = match get_gleam_id(url) {
            Some(id) => id,
            None => {
                return Err(Error::InvalidResponse);
            },
        };
        match reply {
            Reply::Unreachable => Err(Error::Timeout),
            Reply::Undecodable => Err(Error::InvalidResponse),
            Reply::Text(body) => Giveaway::parse(id, body.as_str(), now),
        }
    }

    /// How long to wait before the request for the link number `index` of a
    /// batch, counted from 0: the cooldown between two requests, and nothing
    /// before the first.
    pub fn pause_before(index: usize, cooldown: u64) -> (seconds: u64)
        ensures
            seconds == if index == 0 {
                0
            } else {
                cooldown
            },
    {
        if index == 0 {
            0
        } else {
            cooldown
        }
    }

    /// Fetch some urls: the records of the links that gave one, in the order
    /// of the links. `replies` holds the reply for each link, at its place.
    pub fn fetch_vec(urls: Vec<&str>, replies: &Vec<Reply>, now: u64) -> (found: Vec<Giveaway>)
        ensures
            records(found@) == fetched_all(link_texts(urls@), replies@, now),
    {
        let mut found: Vec<Giveaway> = Vec::new();
        let mut i: usize = 0;
        assert(records(found@) =~= Seq::<Record>::empty());
        assert(link_texts(urls@).skip(0) =~= link_texts(urls@));
        assert(replies@.skip(0) =~= replies@);
        while i < urls.len() && i < replies.len()
            invariant
                i <= urls@.len(),
                i <= replies@.len(),
                fetched_all(link_texts(urls@), replies@, now) == records(found@) + fetched_all(
                    link_texts(urls@).skip(i as int),
                    replies@.skip(i as int),
                    now,
                ),
            decreases urls@.len() - i,
        {
            proof {
                assert(link_texts(urls@).skip(i as int)[0] == urls@[i as int]@);
                assert(replies@.skip(i as int)[0] == replies@[i as int]);
                assert(link_texts(urls@).skip(i as int).drop_first() =~= link_texts(urls@).skip(
                    i + 1,
                ));
                assert(replies@.skip(i as int).drop_first() =~= replies@.skip(i + 1));
            }
            let ghost before = records(found@);
            match Giveaway::fetch(urls[i], &replies[i], now) {
                Ok(giveaway) => {
                    let ghost record = giveaway@;
                    found.push(giveaway);
                    proof {
                        assert(records(found@) =~= before.push(record));
                        let rest = fetched_all(
                            link_texts(urls@).skip(i + 1),
                            replies@.skip(i + 1),
                            now,
                        );
                        assert(before + (seq![record] + rest) =~= before.push(record) + rest);
                    }
                },
                Err(_) => {},
            }
            i += 1;
        }
        proof {
            let rest = fetched_all(link_texts(urls@).skip(i as int), replies@.skip(i as int), now);
            assert(rest =~= Seq::<Record>::empty());
            assert(records(found@) + rest =~= records(found@));
        }
        found
    }

    /// Reads the giveaway again, from the reply to the request for
    /// [`Giveaway::get_url`]. Where the reply gives a record it takes the place
    /// of this one, whole; where it gives none this one stays as it is, and the
    /// failure is handed back.
    pub fn update(&mut self, reply: &Reply, now: u64) -> (outcome: Result<(), Error>)
        ensures
            match outcome {
                Ok(_) => fetched(canonical_url(old(self).gleam_id@), *reply, now) == Ok::<
                    Record,
                    Error,
                >(final(self)@),
                Err(error) => {
                    &&& fetched(canonical_url(old(self).gleam_id@), *reply, now) == Err::<
                        Record,
                        Error,
                    >(error)
                    &&& *final(self) == *old(self)
                },
            },
    {
        let url = self.get_url();
        match Giveaway::fetch(url.as_str(), reply, now) {
            Ok(giveaway) => {
                *self = giveaway;
                Ok(())
            },
            Err(error) => Err(error),
        }
    }

    /// Return the url
    pub fn get_url(&self) -> (url: String)
        ensures
            url@ == canonical_url(self.gleam_id@),
    {
        link(self.gleam_id.as_str())
    }

    /// Whether the end of the giveaway lies before `now`.
    pub fn is_running(&self, now: u64) -> (running: bool)
        ensures
            running == (self.end_date < now),
    {
        self.end_date < now
    }

    /// How many entries one account can make, where that number fits in 64
    /// bits.
    pub fn checked_max_entries_per_account(&self) -> (total: Option<u64>)
        ensures
            match total {
                Some(total) => total == total_worth(self@.entry_methods),
                None => total_worth(self@.entry_methods) > u64::MAX,
            },
    {
        let mut total: u64 = 0;
        let mut i: usize = 0;
        let ghost entries = methods(self.entry_methods@);
        assert(entries.take(0) =~= Seq::<(Seq<char>, u64)>::empty());
        while i < self.entry_methods.len()
            invariant
                i <= self.entry_methods@.len(),
                entries == methods(self.entry_methods@),
                total == total_worth(entries.take(i as int)),
            decreases self.entry_methods@.len() - i,
        {
            proof {
                assert(entries.take(i + 1).drop_last() =~= entries.take(i as int));
                assert(entries.take(i + 1).last() == entries[i as int]);
                lemma_total_worth_grows(entries, i + 1);
            }
            total = match total.checked_add(self.entry_methods[i].1) {
                Some(sum) => sum,
                None => {
                    return None;
                },
            };
            i += 1;
        }
        assert(entries.take(i as int) =~= entries);
        Some(total)
    }

    /// How many entries one account can make: the sum of what the ways to
    /// enter are worth.
    pub fn get_max_entries_per_account(&self) -> (total: u64)
        requires
            total_worth(self@.entry_methods) <= u64::MAX,
        ensures
            total == total_worth(self@.entry_methods),
    {
        let mut total: u64 = 0;
        let mut i: usize = 0;
        let ghost entries = methods(self.entry_methods@);
        assert(entries.take(0) =~= Seq::<(Seq<char>, u64)>::empty());
        while i < self.entry_methods.len()
            invariant
                i <= self.entry_methods@.len(),
                entries == methods(self.entry_methods@),
                total == total_worth(entries.take(i as int)),
                total_worth(entries) <= u64::MAX,
            decreases self.entry_methods@.len() - i,
        {
            proof {
                assert(entries.take(i + 1).drop_last() =~= entries.take(i as int));
                assert(entries.take(i + 1).last() == entries[i as int]);
                lemma_total_worth_grows(entries, i + 1);
            }
            total = total + self.entry_methods[i].1;
            i += 1;
        }
        assert(entries.take(i as int) =~= entries);
        total
    }
}

/// The worth of the first ways to enter is no more than the worth of all.
pub proof fn lemma_total_worth_grows(entries: Seq<(Seq<char>, u64)>, count: int)
    requires
        0 <= count <= entries.len(),
    ensures
        total_worth(entries.take(count)) <= total_worth(entries),
    decreases entries.len(),
{
    if count == entries.len() {
        assert(entries.take(count) =~= entries);
    } else {
        lemma_total_worth_grows(entries.drop_last(), count);
        assert(entries.drop_last().take(count) =~= entries.take(count));
    }
}

/// A record that was read for a link holds the code that the link names, of
/// [`CODE_LEN`] characters, and the time at which it was read; and the link
/// under which it is kept names it again.
pub proof fn law_fetched_record(url: Seq<char>, reply: Reply, now: u64)
    requires
        fetched(url, reply, now) is Ok,
    ensures
        gleam_id(url) == Some(fetched(url, reply, now)->Ok_0.gleam_id),
        fetched(url, reply, now)->Ok_0.gleam_id.len() == CODE_LEN,
        fetched(url, reply, now)->Ok_0.update_date == now,
        gleam_id(canonical_url(fetched(url, reply, now)->Ok_0.gleam_id)) == gleam_id(url),
{
    lemma_roots();
    law_round_trip(url);
}

/// A link that names no giveaway gives no record, whatever the reply.
pub proof fn law_unrecognized_link(url: Seq<char>, reply: Reply, now: u64)
    requires
        gleam_id(url) is None,
    ensures
        fetched(url, reply, now) == Err::<Record, Error>(Error::InvalidResponse),
{
}

} // verus!
