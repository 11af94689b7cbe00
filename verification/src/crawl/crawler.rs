//! The crawler's state and the decisions it takes between fetches: which
//! link comes next, whether a link may be fetched, where the links found on
//! a page are queued, and what is recorded for a page.

use std::collections::VecDeque;

use vstd::prelude::*;

use crate::crawl::links::{
    entry_views, index_entries_of, index_line, index_line_of, is_skipped_resource, page_file_name,
    lemma_skipped_by_ending, page_file_name_of, read_index, skipped_resource,
};
use crate::crawl::page::{
    build_hash_line, count_terms, hash_line_of, idf_after, lemma_idf_after,
    lemma_stems_russian_of_english, page_words_of, spaced_text, stem_words, stems_of, term_counts, word_offset, TAG_PATTERN,
    WORD_PATTERN,
};
use crate::table::{count_of, count_views, find_key, lemma_key_index, lemma_lookup_put, lookup, put};
use crate::crawl::web::{
    opt_string_views, regex_group, regex_group_of, regex_is_valid, regex_valid, robots_allow,
    robots_allows, robots_body_readable, robots_readable, stem_of, string_views, url_domain, url_domain_of, url_join, url_join_of,
    Language,
};
use crate::index::hash::{byte_len, entries_after_add, FileHasher};
use crate::text::{contains_chars, contains_piece, occurs_at, spaced, trim_end, trimmed_end};
use crate::unicode::{chars_of, string_from_chars};

verus! {

/// The pattern of a link on a page: the value of an `href` attribute.
pub const HREF_PATTERN: &'static str = "href=[\"']([/\\..\\w]+)[\"']";

/// The user agent that robots.txt rules are read for.
pub const USER_AGENT: &'static str = "ars_rusty_crawler";

/// The rules taken for a site whose robots.txt cannot be fetched: everything is allowed.
pub const DEFAULT_ROBOTS: &'static str = "User-agent: * \nAllow: /";

/// What the crawler keeps between pages.
#[verifier::ext_equal]
pub struct CrawlerView {
    /// The links already considered for fetching.
    pub browsed: Set<Seq<char>>,
    /// The file names of the stored pages, in the order they were stored.
    pub keys_order: Seq<Seq<char>>,
    /// The robots.txt rules read so far, under the domain they were read for.
    pub robots: Seq<(Seq<char>, Seq<char>)>,
    pub browsed_count: u32,
    /// The links waiting on the domain being crawled, first come first.
    pub internal_queue: Seq<Seq<char>>,
    /// The links waiting on other domains, first come first.
    pub external_queue: Seq<Seq<char>>,
    pub pages_count: u32,
    /// The term counts of each stored page, under its file name.
    pub tf_counts: Seq<(Seq<char>, Seq<(Seq<char>, u32)>)>,
    /// The number of stored pages that hold each term.
    pub idf_counts: Seq<(Seq<char>, u32)>,
}

pub struct Crawler {
    browsed_links: Vec<String>,
    keys_order: Vec<String>,
    robots: Vec<(String, String)>,
    browsed_count: u32,
    internal_queue: VecDeque<String>,
    external_queue: VecDeque<String>,
    pages_count: u32,
    tf_counts: Vec<(String, Vec<(String, u32)>)>,
    idf_counts: Vec<(String, u32)>,
}

/// Why a crawler could not be made.
#[derive(Clone, Copy, Debug, PartialEq, Eq, Structural)]
pub enum CrawlerError {
    /// A row of the index file that is read has no `|`.
    IndexCorrupted,
    /// One of the crawler's patterns is not accepted as a regular expression.
    InvalidPattern,
}

/// The crawl of one request: the domain whose links come first, and how
/// many pages have been stored out of how many wanted.
#[derive(Debug)]
pub struct CrawlSession {
    pub domain: String,
    pub crawled: u32,
    pub count: u32,
}

/// The link to crawl next.
#[derive(Debug)]
pub enum NextLink {
    /// A link from one of the queues.
    Link(String),
    /// Both queues are empty.
    Exhausted,
    /// The next link, from the queue of other domains, has no domain to
    /// crawl: it does not parse, or its host is missing or an address.
    NoDomain(String),
}

/// Whether a link may be fetched.
#[derive(Debug)]
pub enum Admission {
    /// No: it names a resource that is not a page, it was considered
    /// before, or its host is not a domain.
    Refused,
    /// As the robots.txt rules at hand for its domain say.
    Decided(bool),
    /// The robots.txt rules of `domain` are not at hand: they are to be
    /// fetched from `url` and handed to `can_parse_with_robots`.
    FetchRobots { domain: String, url: String },
    /// The link does not parse as a URL.
    Unparsable,
}

/// The fewest words that a page must have to be stored.
pub const MIN_PAGE_WORDS: usize = 1024;

/// What became of a fetched page.
#[derive(Debug)]
pub enum PageOutcome {
    /// Its link gives no file name (see `page_file_name_of`); nothing changed.
    NoFileName,
    /// A link found on it cannot be joined to its address; nothing changed.
    UnjoinableLink { name: String },
    /// Its links are queued, but it has too few words to be stored.
    TooFewWords { name: String, words: usize },
    /// Its links are queued, but it cannot be stored: a word has fewer than
    /// four bytes, its text does not fit in a `u64`, or a count is full.
    Unstorable { name: String, words: usize },
    /// Its links are queued and it is stored as `name`; `files` are the texts
    /// to write for it, and `done` tells whether as many pages as wanted are stored.
    Stored { name: String, words: usize, files: PageFiles, done: bool },
}

/// The texts written for a stored page.
#[derive(Debug)]
pub struct PageFiles {
    /// The page's words, each followed by a space.
    pub parsed: String,
    /// The stems of the page's words, each followed by a space.
    pub stemmed: String,
    /// The page's line of the index file.
    pub index_line: String,
}

/// The set of the strings of `v`.
pub open spec fn string_set(v: Seq<String>) -> Set<Seq<char>> {
    Set::new(|s: Seq<char>| exists|i: int| 0 <= i < v.len() && #[trigger] v[i]@ == s)
}

pub open spec fn pair_views(v: Seq<(String, String)>) -> Seq<(Seq<char>, Seq<char>)> {
    v.map_values(|e: (String, String)| (e.0@, e.1@))
}

pub open spec fn tf_views(v: Seq<(String, Vec<(String, u32)>)>) -> Seq<(Seq<char>, Seq<(Seq<char>, u32)>)> {
    v.map_values(|e: (String, Vec<(String, u32)>)| (e.0@, count_views(e.1@)))
}

/// The state of a crawler made from the index entries `es`: their links
/// are browsed and their file names stored, in order.
pub open spec fn initial_view(es: Seq<(Seq<char>, Seq<char>)>) -> CrawlerView {
    CrawlerView {
        browsed: Set::new(|s: Seq<char>| exists|i: int| 0 <= i < es.len() && #[trigger] es[i].0 == s),
        keys_order: es.map_values(|e: (Seq<char>, Seq<char>)| e.1),
        robots: seq![],
        browsed_count: 0,
        internal_queue: seq![],
        external_queue: seq![],
        pages_count: 0,
        tf_counts: seq![],
        idf_counts: seq![],
    }
}

/// The crawler's patterns are accepted as regular expressions.
pub open spec fn patterns_valid() -> bool {
    regex_valid(TAG_PATTERN@) && regex_valid(WORD_PATTERN@) && regex_valid(HREF_PATTERN@)
}

/// The link targets among the matches `ms` of the link pattern: capture
/// group 1 of each match, where it took part.
pub open spec fn href_targets(ms: Seq<Option<Seq<char>>>) -> Seq<Seq<char>>
    decreases ms.len(),
{
    if ms.len() == 0 {
        seq![]
    } else {
        match ms.last() {
            Some(h) => href_targets(ms.drop_last()).push(h),
            None => href_targets(ms.drop_last()),
        }
    }
}

/// The links targets `hrefs` joined to `base`, or `None` where one does not join.
pub open spec fn joined_links(base: Seq<char>, hrefs: Seq<Seq<char>>) -> Option<Seq<Seq<char>>>
    decreases hrefs.len(),
{
    if hrefs.len() == 0 {
        Some(seq![])
    } else {
        match joined_links(base, hrefs.drop_last()) {
            Some(prev) => match url_join_of(base, hrefs.last()) {
                Some(l) => Some(prev.push(l)),
                None => None,
            },
            None => None,
        }
    }
}

/// The links found on the page `page` fetched from `link`, joined to the
/// link without its trailing white space.
pub open spec fn page_links_of(link: Seq<char>, page: Seq<char>) -> Option<Seq<Seq<char>>> {
    joined_links(trim_end(link), href_targets(regex_group_of(HREF_PATTERN@, page, 1)))
}

/// The URL of the robots.txt rules of `domain`.
pub open spec fn robots_url_of(domain: Seq<char>) -> Seq<char> {
    domain + seq!['/', 'r', 'o', 'b', 'o', 't', 's', '.', 't', 'x', 't']
}

/// A link goes to the queue of the domain being crawled when the domain occurs in it.
pub open spec fn is_internal(domain: Seq<char>) -> spec_fn(Seq<char>) -> bool {
    |l: Seq<char>| contains_piece(l, domain)
}

/// A link goes to the queue of other domains when the domain does not occur in it.
pub open spec fn is_external(domain: Seq<char>) -> spec_fn(Seq<char>) -> bool {
    |l: Seq<char>| !contains_piece(l, domain)
}

/// `can_parse` refuses `link` outright: it names a resource that is not a
/// page, or it was considered before.
pub open spec fn refuses(v: CrawlerView, link: Seq<char>) -> bool {
    skipped_resource(link) || v.browsed.contains(link)
}

/// The state after `can_parse` checks `link`: unchanged where it refuses the
/// link outright, else with the link considered.
pub open spec fn after_can_parse(v: CrawlerView, link: Seq<char>) -> CrawlerView {
    if refuses(v, link) {
        v
    } else {
        CrawlerView { browsed: v.browsed.insert(link), ..v }
    }
}

/// The state after the robots.txt rules `rules` are kept for `domain`.
pub open spec fn after_robots(v: CrawlerView, domain: Seq<char>, rules: Seq<char>) -> CrawlerView {
    CrawlerView { robots: put(v.robots, domain, rules), ..v }
}

/// The state after the links `ls` found on a page are queued while
/// `domain` is crawled.
pub open spec fn after_route(v: CrawlerView, domain: Seq<char>, ls: Seq<Seq<char>>) -> CrawlerView {
    CrawlerView {
        internal_queue: v.internal_queue + ls.filter(is_internal(domain)),
        external_queue: v.external_queue + ls.filter(is_external(domain)),
        ..v
    }
}

/// A page of the words `ws` can be stored in the state `v`: every word has
/// at least four bytes, the page text fits in a `u64`, and no count is full.
pub open spec fn storable(v: CrawlerView, ws: Seq<Seq<char>>) -> bool {
    &&& forall|j: int| 0 <= j < ws.len() ==> byte_len(#[trigger] ws[j]) >= 4
    &&& word_offset(ws, ws.len() as int) <= u64::MAX
    &&& ws.len() < u32::MAX
    &&& v.browsed_count < u32::MAX
    &&& v.pages_count < u32::MAX
}

/// The state after a page of the words `ws` is stored as `name`.
pub open spec fn after_record(v: CrawlerView, name: Seq<char>, ws: Seq<Seq<char>>) -> CrawlerView {
    CrawlerView {
        keys_order: v.keys_order.push(name),
        browsed_count: (v.browsed_count + 1) as u32,
        pages_count: (v.pages_count + 1) as u32,
        tf_counts: put(v.tf_counts, name, term_counts(stems_of(ws))),
        idf_counts: idf_after(v.idf_counts, stems_of(ws)),
        ..v
    }
}

/// The rules that allow everything can be read.
pub proof fn lemma_default_robots_readable()
    ensures
        robots_readable(DEFAULT_ROBOTS@),
{
    reveal_strlit("User-agent: * \nAllow: /");
    assert(vstd::utf8::is_ascii_chars(DEFAULT_ROBOTS@));
}

impl View for Crawler {
    type V = CrawlerView;

    closed spec fn view(&self) -> CrawlerView {
        CrawlerView {
            browsed: string_set(self.browsed_links@),
            keys_order: string_views(self.keys_order@),
            robots: pair_views(self.robots@),
            browsed_count: self.browsed_count,
            internal_queue: string_views(self.internal_queue@),
            external_queue: string_views(self.external_queue@),
            pages_count: self.pages_count,
            tf_counts: tf_views(self.tf_counts@),
            idf_counts: count_views(self.idf_counts@),
        }
    }
}

impl Crawler {
    /// The crawler's patterns are valid, no term is held by more pages than
    /// have been stored, and every robots.txt rules kept can be read.
    #[verifier::type_invariant]
    spec fn well_formed(&self) -> bool {
        &&& patterns_valid()
        &&& forall|t: Seq<char>| #[trigger] count_of(count_views(self.idf_counts@), t) <= self.pages_count
        &&& forall|i: int| 0 <= i < self.robots@.len() ==> robots_readable(#[trigger] self.robots@[i].1@)
    }

    /// A crawler that resumes from the index file `index`: the links it
    /// lists, up to its first empty row, count as browsed, and their file
    /// names as stored.
    pub fn try_new(index: &str) -> (r: Result<Crawler, CrawlerError>)
        ensures
            match r {
                Ok(c) => index_entries_of(index@, true) matches Some(es) && c@ == initial_view(es),
                Err(CrawlerError::IndexCorrupted) => index_entries_of(index@, true) is None,
                Err(CrawlerError::InvalidPattern) => index_entries_of(index@, true) is Some
                    && !patterns_valid(),
            },
    {
        let entries = match read_index(index, true) {
            Some(es) => es,
            None => {
                return Err(CrawlerError::IndexCorrupted);
            },
        };
        if !(regex_is_valid(TAG_PATTERN) && regex_is_valid(WORD_PATTERN) && regex_is_valid(
            HREF_PATTERN,
        )) {
            return Err(CrawlerError::InvalidPattern);
        }
        let ghost ev = entry_views(entries@);
        let mut visited: Vec<String> = Vec::new();
        let mut keys: Vec<String> = Vec::new();
        let mut i: usize = 0;
        while i < entries.len()
            invariant
                i <= entries@.len(),
                ev == entry_views(entries@),
                visited@.len() == i,
                forall|j: int| 0 <= j < i ==> #[trigger] visited@[j]@ == ev[j].0,
                keys@.len() == i,
                forall|j: int| 0 <= j < i ==> #[trigger] keys@[j]@ == ev[j].1,
            decreases entries@.len() - i,
        {
            visited.push(entries[i].0.clone());
            keys.push(entries[i].1.clone());
            assert(ev[i as int] == (entries@[i as int].0@, entries@[i as int].1@));
            i = i + 1;
        }
        assert(string_views(keys@) =~= ev.map_values(|e: (Seq<char>, Seq<char>)| e.1));
        assert(string_set(visited@) =~= initial_view(ev).browsed) by {
            assert forall|s: Seq<char>| string_set(visited@).contains(s) implies initial_view(ev).browsed.contains(s) by {
                let k = choose|k: int| 0 <= k < visited@.len() && #[trigger] visited@[k]@ == s;
                assert(ev[k].0 == s);
            }
            assert forall|s: Seq<char>| initial_view(ev).browsed.contains(s) implies string_set(visited@).contains(s) by {
                let j = choose|j: int| 0 <= j < ev.len() && #[trigger] ev[j].0 == s;
                assert(visited@[j]@ == s);
            }
        }
        let c = Crawler {
            browsed_links: visited,
            keys_order: keys,
            robots: Vec::new(),
            browsed_count: 0,
            internal_queue: VecDeque::new(),
            external_queue: VecDeque::new(),
            pages_count: 0,
            tf_counts: Vec::new(),
            idf_counts: Vec::new(),
        };
        assert(c@.internal_queue =~= Seq::<Seq<char>>::empty());
        assert(c@.external_queue =~= Seq::<Seq<char>>::empty());
        assert(c@.robots =~= Seq::<(Seq<char>, Seq<char>)>::empty());
        assert(c@.tf_counts =~= Seq::<(Seq<char>, Seq<(Seq<char>, u32)>)>::empty());
        assert(c@.idf_counts =~= Seq::<(Seq<char>, u32)>::empty());
        assert(c@ =~= initial_view(ev));
        Ok(c)
    }

    /// The file names of the stored pages, in the order they were stored.
    pub fn keys_order(&self) -> (r: &Vec<String>)
        ensures
            string_views(r@) == self@.keys_order,
    {
        &self.keys_order
    }

    /// The term counts of each stored page, under its file name.
    pub fn tf_counts(&self) -> (r: &Vec<(String, Vec<(String, u32)>)>)
        ensures
            tf_views(r@) == self@.tf_counts,
    {
        &self.tf_counts
    }

    /// The number of stored pages that hold each term.
    pub fn idf_counts(&self) -> (r: &Vec<(String, u32)>)
        ensures
            count_views(r@) == self@.idf_counts,
    {
        &self.idf_counts
    }

    /// The number of pages stored.
    pub fn pages_count(&self) -> (r: u32)
        ensures
            r == self@.pages_count,
    {
        self.pages_count
    }

    /// The number of pages browsed.
    pub fn browsed_count(&self) -> (r: u32)
        ensures
            r == self@.browsed_count,
    {
        self.browsed_count
    }

    /// Starts the crawl of `count` pages from `link`: the link is queued
    /// first, and its domain is the one whose links come first. `None`, and
    /// nothing queued, where the link has no domain.
    fn start_session(&mut self, link: String, count: u32) -> (r: Option<CrawlSession>)
        ensures
            match url_domain_of(link@) {
                Some(Some(d)) => r matches Some(s) && s.domain@ == d && s.crawled == 0 && s.count == count
                    && final(self)@ == (CrawlerView {
                    internal_queue: old(self)@.internal_queue.push(link@),
                    ..old(self)@
                }),
                _ => r is None && final(self)@ == old(self)@,
            },
    {
        proof {
            use_type_invariant(&*self);
        }
        match url_domain(link.as_str()) {
            Some(Some(d)) => {
                let mut q: VecDeque<String> = VecDeque::new();
                std::mem::swap(&mut q, &mut self.internal_queue);
                q.push_back(link);
                self.internal_queue = q;
                assert(string_views(self.internal_queue@) =~= old(self)@.internal_queue.push(link@));
                Some(CrawlSession { domain: d, crawled: 0, count })
            },
            _ => None,
        }
    }

    /// The next link to crawl: the first of the links of the domain being
    /// crawled, or, where there is none, the first of the other links, whose
    /// domain is crawled from then on.
    fn take_next_link(&mut self, session: &mut CrawlSession) -> (r: NextLink)
        ensures
            old(self)@.internal_queue.len() > 0 ==> {
                &&& r matches NextLink::Link(l) && l@ == old(self)@.internal_queue[0]
                &&& final(self)@ == (CrawlerView {
                    internal_queue: old(self)@.internal_queue.drop_first(),
                    ..old(self)@
                })
                &&& *final(session) == *old(session)
            },
            old(self)@.internal_queue.len() == 0 && old(self)@.external_queue.len() > 0 ==> {
                let e = old(self)@.external_queue[0];
                &&& final(self)@ == (CrawlerView {
                    external_queue: old(self)@.external_queue.drop_first(),
                    ..old(self)@
                })
                &&& match url_domain_of(e) {
                    Some(Some(d)) => r matches NextLink::Link(l) && l@ == e && final(session).domain@ == d
                        && final(session).crawled == old(session).crawled && final(session).count
                        == old(session).count,
                    _ => r matches NextLink::NoDomain(l) && l@ == e && *final(session) == *old(session),
                }
            },
            old(self)@.internal_queue.len() == 0 && old(self)@.external_queue.len() == 0 ==> r is Exhausted
                && final(self)@ == old(self)@ && *final(session) == *old(session),
    {
        proof {
            use_type_invariant(&*self);
        }
        let mut q: VecDeque<String> = VecDeque::new();
        std::mem::swap(&mut q, &mut self.internal_queue);
        let first = q.pop_front();
        self.internal_queue = q;
        assert(string_views(self.internal_queue@) =~= if old(self)@.internal_queue.len() > 0 {
            old(self)@.internal_queue.drop_first()
        } else {
            old(self)@.internal_queue
        });
        match first {
            Some(w) => NextLink::Link(w),
            None => {
                let mut e: VecDeque<String> = VecDeque::new();
                std::mem::swap(&mut e, &mut self.external_queue);
                let next = e.pop_front();
                self.external_queue = e;
                assert(string_views(self.external_queue@) =~= if old(self)@.external_queue.len() > 0 {
                    old(self)@.external_queue.drop_first()
                } else {
                    old(self)@.external_queue
                });
                match next {
                    None => NextLink::Exhausted,
                    Some(external_link) => match url_domain(external_link.as_str()) {
                        Some(Some(d)) => {
                            session.domain = d;
                            NextLink::Link(external_link)
                        },
                        _ => NextLink::NoDomain(external_link),
                    },
                }
            },
        }
    }

    /// Whether `link` was considered before.
    fn is_browsed(&self, link: &String) -> (r: bool)
        ensures
            r == self@.browsed.contains(link@),
    {
        let mut i: usize = 0;
        while i < self.browsed_links.len()
            invariant
                i <= self.browsed_links@.len(),
                forall|j: int| 0 <= j < i ==> #[trigger] self.browsed_links@[j]@ != link@,
            decreases self.browsed_links@.len() - i,
        {
            if self.browsed_links[i] == *link {
                assert(string_set(self.browsed_links@).contains(link@));
                return true;
            }
            i = i + 1;
        }
        false
    }

    /// Whether `link` may be fetched. A link that names a resource that is
    /// not a page, or that was considered before, is refused; any other
    /// link counts as considered from then on, and is decided by the
    /// robots.txt rules of its domain where they are at hand.
    fn check_link(&mut self, link: &str) -> (r: Admission)
        ensures
            final(self)@ == after_can_parse(old(self)@, link@),
            if refuses(old(self)@, link@) {
                r is Refused
            } else {
                match url_domain_of(link@) {
                    None => r is Unparsable,
                    Some(None) => r is Refused,
                    Some(Some(d)) => match lookup(old(self)@.robots, d) {
                        Some(body) => r == Admission::Decided(robots_allows(body, USER_AGENT@, link@)),
                        None => r matches Admission::FetchRobots { domain, url } && domain@ == d && url@
                            == robots_url_of(d),
                    },
                }
            },
    {
        proof {
            use_type_invariant(&*self);
        }
        if is_skipped_resource(link) {
            return Admission::Refused;
        }
        let owned = link.to_owned();
        if self.is_browsed(&owned) {
            return Admission::Refused;
        }
        let mut v: Vec<String> = Vec::new();
        std::mem::swap(&mut v, &mut self.browsed_links);
        let ghost before = v@;
        v.push(owned);
        self.browsed_links = v;
        assert(string_set(self.browsed_links@) =~= string_set(before).insert(link@)) by {
            assert forall|s: Seq<char>| string_set(self.browsed_links@).contains(s) implies string_set(before).insert(link@).contains(s) by {
                let k = choose|k: int| 0 <= k < self.browsed_links@.len() && #[trigger] self.browsed_links@[k]@ == s;
                if k < before.len() {
                    assert(before[k]@ == s);
                }
            }
            assert forall|s: Seq<char>| string_set(before).insert(link@).contains(s) implies string_set(self.browsed_links@).contains(s) by {
                if s == link@ {
                    assert(self.browsed_links@[before.len() as int]@ == s);
                } else {
                    let k = choose|k: int| 0 <= k < before.len() && #[trigger] before[k]@ == s;
                    assert(self.browsed_links@[k]@ == s);
                }
            }
        }
        match url_domain(link) {
            None => Admission::Unparsable,
            Some(None) => Admission::Refused,
            Some(Some(d)) => {
                let ghost rv = pair_views(self.robots@);
                match find_key::<String, Seq<char>>(&self.robots, &d, Ghost(rv)) {
                    Some(j) => {
                        proof {
                            lemma_key_index(rv, d@);
                        }
                        assert(robots_readable(self.robots@[j as int].1@));
                        let allowed = robots_allow(self.robots[j].1.as_str(), USER_AGENT, link);
                        Admission::Decided(allowed)
                    },
                    None => {
                        let dc = chars_of(d.as_str());
                        let mut u = chars_of(d.as_str());
                        u.push('/');
                        u.push('r');
                        u.push('o');
                        u.push('b');
                        u.push('o');
                        u.push('t');
                        u.push('s');
                        u.push('.');
                        u.push('t');
                        u.push('x');
                        u.push('t');
                        assert(u@ =~= robots_url_of(dc@));
                        Admission::FetchRobots { domain: d, url: string_from_chars(&u) }
                    },
                }
            },
        }
    }

    /// Decides on `link` by the robots.txt rules `body` fetched for
    /// `domain`, or by rules that allow everything where none could be
    /// fetched; the rules are kept for the domain. `None`, and nothing kept,
    /// where the rules cannot be read (see `robots_readable`).
    pub fn can_parse_with_robots(&mut self, link: &str, domain: String, body: Option<String>) -> (r:
        Option<bool>)
        ensures
            ({
                let rules = match body {
                    Some(b) => b@,
                    None => DEFAULT_ROBOTS@,
                };
                if robots_readable(rules) {
                    &&& r == Some(robots_allows(rules, USER_AGENT@, link@))
                    &&& final(self)@ == after_robots(old(self)@, domain@, rules)
                } else {
                    &&& r is None
                    &&& final(self)@ == old(self)@
                }
            }),
            body is None ==> r is Some,
    {
        proof {
            lemma_default_robots_readable();
        }
        proof {
            use_type_invariant(&*self);
        }
        let rules = match body {
            Some(b) => b,
            None => DEFAULT_ROBOTS.to_owned(),
        };
        if !robots_body_readable(rules.as_str()) {
            return None;
        }
        let allowed = robots_allow(rules.as_str(), USER_AGENT, link);
        let ghost rv = pair_views(self.robots@);
        let ghost rules_view = rules@;
        let ghost before = self.robots@;
        let found = find_key::<String, Seq<char>>(&self.robots, &domain, Ghost(rv));
        proof {
            lemma_key_index(rv, domain@);
        }
        let mut v: Vec<(String, String)> = Vec::new();
        std::mem::swap(&mut v, &mut self.robots);
        match found {
            Some(j) => {
                v.set(j, (domain, rules));
            },
            None => {
                v.push((domain, rules));
            },
        }
        assert forall|i: int| 0 <= i < v@.len() implies robots_readable(#[trigger] v@[i].1@) by {
            if i < before.len() && v@[i] == before[i] {
            } else {
                assert(v@[i].1@ == rules_view);
            }
        }
        self.robots = v;
        assert(pair_views(self.robots@) =~= put(rv, domain@, rules_view));
        Some(allowed)
    }

    /// Queues the links found on the page `page` fetched from `link`: those
    /// in which the domain being crawled occurs go to its queue, the others
    /// to the queue of other domains, each in the order found. Where a link
    /// cannot be joined to the page's address, nothing is queued and the
    /// result is `false`.
    pub fn try_route_links(&mut self, session: &CrawlSession, link: &str, page: &str) -> (r: bool)
        ensures
            match page_links_of(link@, page@) {
                Some(ls) => r && final(self)@ == after_route(old(self)@, session.domain@, ls),
                None => !r && final(self)@ == old(self)@,
            },
    {
        proof {
            use_type_invariant(&*self);
        }
        let ms = regex_group(HREF_PATTERN, page, 1);
        let ghost mv = opt_string_views(ms@);
        let base = string_from_chars(&trimmed_end(&chars_of(link)));
        let mut joined: Vec<String> = Vec::new();
        let mut i: usize = 0;
        assert(mv.take(0) =~= Seq::<Option<Seq<char>>>::empty());
        while i < ms.len()
            invariant
                i <= ms@.len(),
                mv == opt_string_views(ms@),
                mv == regex_group_of(HREF_PATTERN@, page@, 1),
                base@ == trim_end(link@),
                joined_links(base@, href_targets(mv.take(i as int))) == Some(string_views(joined@)),
            decreases ms@.len() - i,
        {
            let ghost t = mv.take(i + 1);
            assert(t.drop_last() =~= mv.take(i as int));
            match &ms[i] {
                Some(h) => {
                    assert(t.last() == Some(h@));
                    let ghost ht = href_targets(t);
                    assert(ht == href_targets(mv.take(i as int)).push(h@));
                    assert(ht.drop_last() =~= href_targets(mv.take(i as int)));
                    assert(ht.last() == h@);
                    match url_join(base.as_str(), h.as_str()) {
                        Some(l) => {
                            let ghost before = string_views(joined@);
                            joined.push(l);
                            assert(string_views(joined@) =~= before.push(l@));
                        },
                        None => {
                            assert(href_targets(t).drop_last() =~= href_targets(mv.take(i as int)));
                            assert(joined_links(base@, href_targets(t)) is None);
                            proof {
                                lemma_href_targets_prefix(mv, i + 1);
                                lemma_joined_prefix_fails(base@, href_targets(mv), href_targets(t));
                            }
                            assert(mv.take(ms@.len() as int) =~= mv);
                            return false;
                        },
                    }
                },
                None => {
                    assert(t.last() is None);
                    assert(href_targets(t) == href_targets(mv.take(i as int)));
                },
            }
            i = i + 1;
        }
        assert(mv.take(ms@.len() as int) =~= mv);
        let ghost ls = string_views(joined@);
        let dom = chars_of(session.domain.as_str());
        let mut internal: VecDeque<String> = VecDeque::new();
        std::mem::swap(&mut internal, &mut self.internal_queue);
        let mut external: VecDeque<String> = VecDeque::new();
        std::mem::swap(&mut external, &mut self.external_queue);
        let ghost in0 = string_views(internal@);
        let ghost ex0 = string_views(external@);
        let mut k: usize = 0;
        assert(ls.take(0) =~= Seq::<Seq<char>>::empty());
        proof {
            reveal(Seq::filter);
        }
        assert(in0 + ls.take(0).filter(is_internal(dom@)) =~= in0);
        assert(ex0 + ls.take(0).filter(is_external(dom@)) =~= ex0);
        while k < joined.len()
            invariant
                k <= joined@.len(),
                ls == string_views(joined@),
                dom@ == session.domain@,
                string_views(internal@) == in0 + ls.take(k as int).filter(is_internal(dom@)),
                string_views(external@) == ex0 + ls.take(k as int).filter(is_external(dom@)),
            decreases joined@.len() - k,
        {
            let l = joined[k].clone();
            let lc = chars_of(l.as_str());
            let ghost t = ls.take(k + 1);
            assert(t.drop_last() =~= ls.take(k as int));
            assert(t.last() == l@);
            let ghost iv = string_views(internal@);
            let ghost ev = string_views(external@);
            proof {
                reveal(Seq::filter);
            }
            assert(is_internal(dom@)(lc@) == contains_piece(lc@, dom@));
            assert(is_external(dom@)(lc@) == !contains_piece(lc@, dom@));
            if contains_chars(&lc, &dom) {
                assert(t.filter(is_internal(dom@)) == ls.take(k as int).filter(is_internal(dom@)).push(lc@));
                internal.push_back(l);
                assert(string_views(internal@) =~= iv.push(lc@));
                assert(string_views(internal@) =~= in0 + t.filter(is_internal(dom@)));
                assert(t.filter(is_external(dom@)) =~= ls.take(k as int).filter(is_external(dom@)));
            } else {
                assert(t.filter(is_external(dom@)) == ls.take(k as int).filter(is_external(dom@)).push(lc@));
                external.push_back(l);
                assert(string_views(external@) =~= ev.push(lc@));
                assert(string_views(external@) =~= ex0 + t.filter(is_external(dom@)));
                assert(t.filter(is_internal(dom@)) =~= ls.take(k as int).filter(is_internal(dom@)));
            }
            k = k + 1;
        }
        assert(ls.take(joined@.len() as int) =~= ls);
        self.internal_queue = internal;
        self.external_queue = external;
        true
    }

    /// The words of the page `page` (see `page_words_of`).
    pub fn page_words(&self, page: &str) -> (r: Vec<String>)
        ensures
            string_views(r@) == page_words_of(page@),
    {
        proof {
            use_type_invariant(self);
        }
        crate::crawl::page::page_words(page)
    }
}

impl Crawler {
    /// Records the page fetched from `link` and stored as `name`, whose
    /// words are `words`: its signature boxes go to `hasher` under its name,
    /// its name to the stored names, its term counts to the table of term
    /// counts, and each of its terms counts one page more. Gives the texts
    /// to write for it. Every word has at least four bytes, and the page
    /// text fits in a `u64`.
    pub fn record_page(&mut self, hasher: &mut FileHasher, link: &str, name: &str, words: &Vec<String>) -> (r:
        PageFiles)
        requires
            forall|j: int| 0 <= j < words@.len() ==> byte_len(#[trigger] words@[j]@) >= 4,
            word_offset(string_views(words@), words@.len() as int) <= u64::MAX,
            words@.len() < u32::MAX,
            old(self)@.browsed_count < u32::MAX,
            old(self)@.pages_count < u32::MAX,
        ensures
            ({
                let ws = string_views(words@);
                let stems = stems_of(ws);
                &&& r.parsed@ == spaced(ws)
                &&& r.stemmed@ == spaced(stems)
                &&& r.index_line@ == index_line_of(link@, name@)
                &&& final(hasher)@ == entries_after_add(old(hasher)@, name@, hash_line_of(ws))
                &&& final(self)@ == after_record(old(self)@, name@, ws)
            }),
    {
        proof {
            use_type_invariant(&*self);
        }
        let ghost ws = string_views(words@);
        let line = build_hash_line(words);
        let stems = stem_words(words);
        let parsed = spaced_text(words);
        let stemmed = spaced_text(&stems);
        let ghost sv = string_views(stems@);
        assert(sv.len() == ws.len());
        let ghost idf0 = count_views(self.idf_counts@);
        let mut idf: Vec<(String, u32)> = Vec::new();
        std::mem::swap(&mut idf, &mut self.idf_counts);
        assert(count_views(idf@) == idf0);
        let tf = count_terms(&stems, &mut idf);
        self.pages_count = self.pages_count + 1;
        assert forall|t: Seq<char>| #[trigger] count_of(count_views(idf@), t) <= self.pages_count by {
            lemma_idf_after(idf0, sv, t);
        }
        self.idf_counts = idf;
        let key = name.to_owned();
        let ghost tv = tf_views(self.tf_counts@);
        let found = find_key::<Vec<(String, u32)>, Seq<(Seq<char>, u32)>>(&self.tf_counts, &key, Ghost(tv));
        proof {
            lemma_key_index(tv, name@);
        }
        let mut tables: Vec<(String, Vec<(String, u32)>)> = Vec::new();
        std::mem::swap(&mut tables, &mut self.tf_counts);
        let ghost tf_view = count_views(tf@);
        match found {
            Some(j) => {
                tables.set(j, (key.clone(), tf));
            },
            None => {
                tables.push((key.clone(), tf));
            },
        }
        self.tf_counts = tables;
        assert(tf_views(self.tf_counts@) =~= put(tv, name@, tf_view));
        hasher.add(line, name);
        let mut keys: Vec<String> = Vec::new();
        std::mem::swap(&mut keys, &mut self.keys_order);
        keys.push(key);
        self.keys_order = keys;
        assert(string_views(self.keys_order@) =~= old(self)@.keys_order.push(name@));
        self.browsed_count = self.browsed_count + 1;
        let line_text = index_line(link, name);
        PageFiles { parsed, stemmed, index_line: line_text }
    }
}

/// Whether the words `words` can make a page: each has at least four
/// bytes, their text fits in a `u64`, and they are fewer than `u32::MAX`.
fn storable_words(words: &Vec<String>) -> (r: bool)
    ensures
        r == ({
            let ws = string_views(words@);
            &&& forall|j: int| 0 <= j < ws.len() ==> byte_len(#[trigger] ws[j]) >= 4
            &&& word_offset(ws, ws.len() as int) <= u64::MAX
            &&& ws.len() < u32::MAX
        }),
{
    let ghost ws = string_views(words@);
    if words.len() >= 0xffff_ffffusize {
        return false;
    }
    let mut total: u64 = 0;
    let mut i: usize = 0;
    assert(ws.take(0) =~= Seq::<Seq<char>>::empty());
    assert(spaced(Seq::<Seq<char>>::empty()) =~= Seq::<char>::empty());
    while i < words.len()
        invariant
            i <= words@.len(),
            ws == string_views(words@),
            total == word_offset(ws, i as int),
            forall|j: int| 0 <= j < i ==> byte_len(#[trigger] ws[j]) >= 4,
        decreases words@.len() - i,
    {
        assert(ws[i as int] == words@[i as int]@);
        let n = words[i].as_str().as_bytes().len();
        if n < 4 {
            return false;
        }
        proof {
            crate::crawl::page::lemma_offset_step(ws, i as int);
            crate::crawl::page::lemma_offset_monotone(ws, i + 1, ws.len() as int);
        }
        let step = match (n as u64).checked_add(1) {
            Some(v) => v,
            None => {
                return false;
            },
        };
        total = match total.checked_add(step) {
            Some(v) => v,
            None => {
                return false;
            },
        };
        i = i + 1;
    }
    true
}

impl Crawler {
    /// Takes in the page `page` fetched from `link`: its file name is found,
    /// the links on it are queued, and, where it has enough words and can be
    /// stored, it is recorded and counted in `session`.
    pub fn try_store_page(
        &mut self,
        hasher: &mut FileHasher,
        session: &mut CrawlSession,
        link: &str,
        page: &str,
    ) -> (r: PageOutcome)
        ensures
            match page_file_name_of(link@) {
                None => r is NoFileName && final(self)@ == old(self)@ && final(hasher)@ == old(hasher)@
                    && *final(session) == *old(session),
                Some(name) => match page_links_of(link@, page@) {
                    None => r matches PageOutcome::UnjoinableLink { name: n } && n@ == name && final(self)@
                        == old(self)@ && final(hasher)@ == old(hasher)@ && *final(session) == *old(session),
                    Some(ls) => {
                        let routed = after_route(old(self)@, old(session).domain@, ls);
                        let ws = page_words_of(page@);
                        if ws.len() < MIN_PAGE_WORDS {
                            &&& r matches PageOutcome::TooFewWords { name: n, words } && n@ == name && words
                                == ws.len()
                            &&& final(self)@ == routed
                            &&& final(hasher)@ == old(hasher)@
                            &&& *final(session) == *old(session)
                        } else if !(storable(routed, ws) && old(session).crawled < u32::MAX) {
                            &&& r matches PageOutcome::Unstorable { name: n, words } && n@ == name && words
                                == ws.len()
                            &&& final(self)@ == routed
                            &&& final(hasher)@ == old(hasher)@
                            &&& *final(session) == *old(session)
                        } else {
                            &&& r matches PageOutcome::Stored { name: n, words, files, done } && n@ == name
                                && words == ws.len() && files.parsed@ == spaced(ws) && files.stemmed@
                                == spaced(stems_of(ws)) && files.index_line@ == index_line_of(link@, name)
                                && done == (final(session).crawled >= final(session).count)
                            &&& final(hasher)@ == entries_after_add(old(hasher)@, name, hash_line_of(ws))
                            &&& final(self)@ == after_record(routed, name, ws)
                            &&& final(session).crawled == old(session).crawled + 1
                            &&& final(session).count == old(session).count
                            &&& final(session).domain == old(session).domain
                        }
                    },
                },
            },
    {
        let name = match page_file_name(link) {
            Some(n) => n,
            None => {
                return PageOutcome::NoFileName;
            },
        };
        if !self.try_route_links(&*session, link, page) {
            return PageOutcome::UnjoinableLink { name };
        }
        let words = self.page_words(page);
        let count = words.len();
        if count < MIN_PAGE_WORDS {
            return PageOutcome::TooFewWords { name, words: count };
        }
        if !(storable_words(&words) && self.browsed_count < 0xffff_ffffu32 && self.pages_count
            < 0xffff_ffffu32 && session.crawled < 0xffff_ffffu32) {
            return PageOutcome::Unstorable { name, words: count };
        }
        assert forall|j: int| 0 <= j < words@.len() implies byte_len(#[trigger] words@[j]@) >= 4 by {
            assert(string_views(words@)[j] == words@[j]@);
        }
        let files = self.record_page(hasher, link, name.as_str(), &words);
        let done = session.page_crawled();
        PageOutcome::Stored { name, words: count, files, done }
    }
}

impl Crawler {
    /// A crawler that resumes from the index file `index` (see `try_new`).
    /// The index must read, and the crawler's patterns must be valid.
    pub fn new(index: &str) -> (r: Crawler)
        requires
            index_entries_of(index@, true) is Some,
            patterns_valid(),
        ensures
            index_entries_of(index@, true) matches Some(es) && r@ == initial_view(es),
    {
        match Crawler::try_new(index) {
            Ok(c) => c,
            Err(_) => {
                proof {
                    assert(false);
                }
                Crawler {
                    browsed_links: Vec::new(),
                    keys_order: Vec::new(),
                    robots: Vec::new(),
                    browsed_count: 0,
                    internal_queue: VecDeque::new(),
                    external_queue: VecDeque::new(),
                    pages_count: 0,
                    tf_counts: Vec::new(),
                    idf_counts: Vec::new(),
                }
            },
        }
    }

    /// Starts the crawl of `count` pages from `link`, which is queued first
    /// and whose domain is the one whose links come first. The link must
    /// have a domain (see `try_begin`).
    pub fn begin(&mut self, link: String, count: u32) -> (r: CrawlSession)
        requires
            url_domain_of(link@) matches Some(Some(_)),
        ensures
            url_domain_of(link@) matches Some(Some(d)) && r.domain@ == d,
            r.crawled == 0,
            r.count == count,
            final(self)@ == (CrawlerView {
                internal_queue: old(self)@.internal_queue.push(link@),
                ..old(self)@
            }),
    {
        match self.start_session(link, count) {
            Some(s) => s,
            None => {
                proof {
                    assert(false);
                }
                CrawlSession { domain: String::new(), crawled: 0, count }
            },
        }
    }

    /// The next link to crawl, or `None` where both queues are empty (see
    /// `try_next_link`). A link taken from the queue of other domains must
    /// have a domain.
    pub fn next_link(&mut self, session: &mut CrawlSession) -> (r: Option<String>)
        requires
            old(self)@.internal_queue.len() == 0 && old(self)@.external_queue.len() > 0 ==> url_domain_of(
                old(self)@.external_queue[0],
            ) matches Some(Some(_)),
        ensures
            old(self)@.internal_queue.len() > 0 ==> {
                &&& r matches Some(l) && l@ == old(self)@.internal_queue[0]
                &&& final(self)@ == (CrawlerView {
                    internal_queue: old(self)@.internal_queue.drop_first(),
                    ..old(self)@
                })
                &&& *final(session) == *old(session)
            },
            old(self)@.internal_queue.len() == 0 && old(self)@.external_queue.len() > 0 ==> {
                let e = old(self)@.external_queue[0];
                &&& final(self)@ == (CrawlerView {
                    external_queue: old(self)@.external_queue.drop_first(),
                    ..old(self)@
                })
                &&& r matches Some(l) && l@ == e
                &&& url_domain_of(e) matches Some(Some(d)) && final(session).domain@ == d
                &&& final(session).crawled == old(session).crawled
                &&& final(session).count == old(session).count
            },
            old(self)@.internal_queue.len() == 0 && old(self)@.external_queue.len() == 0 ==> r is None
                && final(self)@ == old(self)@ && *final(session) == *old(session),
    {
        match self.take_next_link(session) {
            NextLink::Link(l) => Some(l),
            NextLink::Exhausted => None,
            NextLink::NoDomain(_) => {
                proof {
                    assert(false);
                }
                None
            },
        }
    }

    /// Whether `link` may be fetched (see `try_can_parse`). A link that is
    /// not refused outright must parse as a URL.
    pub fn can_parse(&mut self, link: &str) -> (r: Admission)
        requires
            refuses(old(self)@, link@) || url_domain_of(link@) is Some,
        ensures
            final(self)@ == after_can_parse(old(self)@, link@),
            if refuses(old(self)@, link@) {
                r is Refused
            } else {
                match url_domain_of(link@) {
                    None => false,
                    Some(None) => r is Refused,
                    Some(Some(d)) => match lookup(old(self)@.robots, d) {
                        Some(body) => r == Admission::Decided(robots_allows(body, USER_AGENT@, link@)),
                        None => r matches Admission::FetchRobots { domain, url } && domain@ == d && url@
                            == robots_url_of(d),
                    },
                }
            },
    {
        self.check_link(link)
    }

    /// Queues the links found on the page `page` fetched from `link` (see
    /// `try_route_links`). Every link found must join to the page's address.
    pub fn route_links(&mut self, session: &CrawlSession, link: &str, page: &str)
        requires
            page_links_of(link@, page@) is Some,
        ensures
            page_links_of(link@, page@) matches Some(ls) && final(self)@ == after_route(
                old(self)@,
                session.domain@,
                ls,
            ),
    {
        let _ = self.try_route_links(session, link, page);
    }

    /// Takes in the page `page` fetched from `link` (see `try_store_page`).
    /// The link must give a file name, every link on the page must join to
    /// its address, and a page with enough words must be storable.
    pub fn store_page(
        &mut self,
        hasher: &mut FileHasher,
        session: &mut CrawlSession,
        link: &str,
        page: &str,
    ) -> (r: PageOutcome)
        requires
            page_file_name_of(link@) is Some,
            page_links_of(link@, page@) is Some,
            page_words_of(page@).len() >= MIN_PAGE_WORDS ==> storable(old(self)@, page_words_of(page@))
                && old(session).crawled < u32::MAX,
        ensures
            page_file_name_of(link@) matches Some(name) && page_links_of(link@, page@) matches Some(ls)
                && {
                let routed = after_route(old(self)@, old(session).domain@, ls);
                let ws = page_words_of(page@);
                if ws.len() < MIN_PAGE_WORDS {
                    &&& r matches PageOutcome::TooFewWords { name: n, words } && n@ == name && words
                        == ws.len()
                    &&& final(self)@ == routed
                    &&& final(hasher)@ == old(hasher)@
                    &&& *final(session) == *old(session)
                } else {
                    &&& r matches PageOutcome::Stored { name: n, words, files, done } && n@ == name
                        && words == ws.len() && files.parsed@ == spaced(ws) && files.stemmed@ == spaced(
                        stems_of(ws),
                    ) && files.index_line@ == index_line_of(link@, name) && done == (
                    final(session).crawled >= final(session).count)
                    &&& final(hasher)@ == entries_after_add(old(hasher)@, name, hash_line_of(ws))
                    &&& final(self)@ == after_record(routed, name, ws)
                    &&& final(session).crawled == old(session).crawled + 1
                    &&& final(session).count == old(session).count
                    &&& final(session).domain == old(session).domain
                }
            },
    {
        self.try_store_page(hasher, session, link, page)
    }
}

impl Crawler {
    /// Starts the crawl of `count` pages from `link`: the link is queued
    /// first, and its domain is the one whose links come first. `None`, and
    /// nothing queued, where the link has no domain.
    pub fn try_begin(&mut self, link: String, count: u32) -> (r: Option<CrawlSession>)
        ensures
            match url_domain_of(link@) {
                Some(Some(d)) => r matches Some(s) && s.domain@ == d && s.crawled == 0 && s.count == count
                    && final(self)@ == (CrawlerView {
                    internal_queue: old(self)@.internal_queue.push(link@),
                    ..old(self)@
                }),
                _ => r is None && final(self)@ == old(self)@,
            },
    {
        match url_domain(link.as_str()) {
            Some(Some(_)) => Some(self.begin(link, count)),
            _ => None,
        }
    }

    /// The next link to crawl: the first of the links of the domain being
    /// crawled, or, where there is none, the first of the other links, whose
    /// domain is crawled from then on; `NoDomain` where that link has no domain.
    pub fn try_next_link(&mut self, session: &mut CrawlSession) -> (r: NextLink)
        ensures
            old(self)@.internal_queue.len() > 0 ==> {
                &&& r matches NextLink::Link(l) && l@ == old(self)@.internal_queue[0]
                &&& final(self)@ == (CrawlerView {
                    internal_queue: old(self)@.internal_queue.drop_first(),
                    ..old(self)@
                })
                &&& *final(session) == *old(session)
            },
            old(self)@.internal_queue.len() == 0 && old(self)@.external_queue.len() > 0 ==> {
                let e = old(self)@.external_queue[0];
                &&& final(self)@ == (CrawlerView {
                    external_queue: old(self)@.external_queue.drop_first(),
                    ..old(self)@
                })
                &&& match url_domain_of(e) {
                    Some(Some(d)) => r matches NextLink::Link(l) && l@ == e && final(session).domain@ == d
                        && final(session).crawled == old(session).crawled && final(session).count
                        == old(session).count,
                    _ => r matches NextLink::NoDomain(l) && l@ == e && *final(session) == *old(session),
                }
            },
            old(self)@.internal_queue.len() == 0 && old(self)@.external_queue.len() == 0 ==> r is Exhausted
                && final(self)@ == old(self)@ && *final(session) == *old(session),
    {
        if self.internal_queue.len() == 0 && self.external_queue.len() > 0 {
            assert(self@.external_queue[0] == self.external_queue@[0]@);
            match url_domain(self.external_queue[0].as_str()) {
                Some(Some(_)) => {},
                _ => {
                    return self.take_next_link(session);
                },
            }
        }
        match self.next_link(session) {
            Some(l) => NextLink::Link(l),
            None => NextLink::Exhausted,
        }
    }

    /// Whether `link` may be fetched. A link that names a resource that is
    /// not a page, or that was considered before, is refused; any other
    /// link counts as considered from then on, and is decided by the
    /// robots.txt rules of its domain where they are at hand; `Unparsable`
    /// where it does not parse as a URL.
    pub fn try_can_parse(&mut self, link: &str) -> (r: Admission)
        ensures
            final(self)@ == after_can_parse(old(self)@, link@),
            if refuses(old(self)@, link@) {
                r is Refused
            } else {
                match url_domain_of(link@) {
                    None => r is Unparsable,
                    Some(None) => r is Refused,
                    Some(Some(d)) => match lookup(old(self)@.robots, d) {
                        Some(body) => r == Admission::Decided(robots_allows(body, USER_AGENT@, link@)),
                        None => r matches Admission::FetchRobots { domain, url } && domain@ == d && url@
                            == robots_url_of(d),
                    },
                }
            },
    {
        if is_skipped_resource(link) || self.is_browsed(&link.to_owned()) {
            return self.can_parse(link);
        }
        match url_domain(link) {
            None => self.check_link(link),
            Some(_) => self.can_parse(link),
        }
    }
}

impl CrawlSession {
    /// Counts one more page stored; whether as many as wanted are.
    pub fn page_crawled(&mut self) -> (done: bool)
        requires
            old(self).crawled < u32::MAX,
        ensures
            final(self).crawled == old(self).crawled + 1,
            final(self).count == old(self).count,
            final(self).domain == old(self).domain,
            done == (final(self).crawled >= final(self).count),
    {
        self.crawled = self.crawled + 1;
        self.crawled >= self.count
    }
}

/// The link targets of a first part of the matches are a first part of all the link targets.
proof fn lemma_href_targets_prefix(ms: Seq<Option<Seq<char>>>, n: int)
    requires
        0 <= n <= ms.len(),
    ensures
        href_targets(ms.take(n)).len() <= href_targets(ms).len(),
        href_targets(ms).take(href_targets(ms.take(n)).len() as int) == href_targets(ms.take(n)),
    decreases ms.len(),
{
    if n == ms.len() {
        assert(ms.take(n) =~= ms);
        assert(href_targets(ms).take(href_targets(ms).len() as int) =~= href_targets(ms));
    } else {
        let prev = ms.drop_last();
        assert(prev.take(n) =~= ms.take(n));
        lemma_href_targets_prefix(prev, n);
        let a = href_targets(prev);
        let b = href_targets(ms.take(n));
        match ms.last() {
            Some(h) => {
                assert(href_targets(ms) == a.push(h));
                assert(a.push(h).take(b.len() as int) =~= a.take(b.len() as int));
            },
            None => {},
        }
    }
}

/// Where the joining fails for some link targets, it fails for any that
/// begin with them.
proof fn lemma_joined_prefix_fails(base: Seq<char>, all: Seq<Seq<char>>, pre: Seq<Seq<char>>)
    requires
        pre.len() <= all.len(),
        all.take(pre.len() as int) == pre,
        joined_links(base, pre) is None,
    ensures
        joined_links(base, all) is None,
    decreases all.len() - pre.len(),
{
    if all.len() > pre.len() {
        let longer = all.take(pre.len() + 1int);
        assert(longer.drop_last() =~= pre);
        assert(longer.len() <= all.len());
        assert(all.take(longer.len() as int) =~= longer);
        lemma_joined_prefix_fails(base, all, longer);
    } else {
        assert(all =~= pre);
    }
}

/// A link is considered at most once: after `can_parse` has checked a
/// link, whatever it answered, a later check of the same link refuses it
/// and changes nothing.
pub proof fn lemma_link_considered_once(v: CrawlerView, link: Seq<char>)
    ensures
        refuses(after_can_parse(v, link), link),
        after_can_parse(after_can_parse(v, link), link) == after_can_parse(v, link),
{
}

/// The robots.txt rules kept for a domain are the ones at hand for it from
/// then on, so they are not fetched again; the rules of other domains stay.
pub proof fn lemma_robots_rules_kept(v: CrawlerView, domain: Seq<char>, rules: Seq<char>, other: Seq<char>)
    ensures
        lookup(after_robots(v, domain, rules).robots, domain) == Some(rules),
        other != domain ==> lookup(after_robots(v, domain, rules).robots, other) == lookup(v.robots, other),
{
    lemma_lookup_put(v.robots, domain, rules, domain);
    lemma_lookup_put(v.robots, domain, rules, other);
}

/// A page stored as `name` has as its term counts the counts of the Russian
/// Snowball stems of the English Snowball stems of its words, and its
/// stemmed text is those stems, in order, each followed by a space.
pub proof fn lemma_recorded_terms(v: CrawlerView, name: Seq<char>, ws: Seq<Seq<char>>)
    ensures
        lookup(after_record(v, name, ws).tf_counts, name) == Some(
            term_counts(
                ws.map_values(
                    |w: Seq<char>| stem_of(Language::Russian, stem_of(Language::English, w)),
                ),
            ),
        ),
        spaced(stems_of(ws)) == spaced(
            ws.map_values(|w: Seq<char>| stem_of(Language::Russian, stem_of(Language::English, w))),
        ),
{
    lemma_stems_russian_of_english(ws);
    lemma_lookup_put(v.tf_counts, name, term_counts(stems_of(ws)), name);
}

/// A link that was not considered before and whose last character is none
/// of `s`, `f`, `m`, `g`, `p` and `o` is never refused outright, whatever
/// else it holds: `can_parse` counts it as considered and goes on to its
/// domain.
pub proof fn lemma_page_link_not_refused(v: CrawlerView, link: Seq<char>)
    requires
        !v.browsed.contains(link),
        link.len() > 0,
        ({
            let c = link.last();
            c != 's' && c != 'f' && c != 'm' && c != 'g' && c != 'p' && c != 'o'
        }),
    ensures
        !refuses(v, link),
        after_can_parse(v, link).browsed.contains(link),
{
    lemma_skipped_by_ending(link);
}

/// A found link in which the domain being crawled occurs, wherever in it,
/// joins the queue of that domain and is not routed to the other queue.
pub proof fn lemma_link_with_domain_goes_internal(
    v: CrawlerView,
    domain: Seq<char>,
    ls: Seq<Seq<char>>,
    pre: Seq<char>,
    suf: Seq<char>,
)
    requires
        ls.contains(pre + domain + suf),
    ensures
        after_route(v, domain, ls).internal_queue.contains(pre + domain + suf),
        !ls.filter(is_external(domain)).contains(pre + domain + suf),
{
    let l = pre + domain + suf;
    let i = pre.len() as int;
    assert(l.subrange(i, i + domain.len()) =~= domain);
    assert(occurs_at(l, domain, i));
    assert(contains_piece(l, domain));
    let j = choose|j: int| 0 <= j < ls.len() && ls[j] == l;
    ls.lemma_filter_contains(is_internal(domain), j);
    let inside = ls.filter(is_internal(domain));
    let k = choose|k: int| 0 <= k < inside.len() && inside[k] == l;
    let q = after_route(v, domain, ls).internal_queue;
    assert(q[v.internal_queue.len() + k] == l);
    let outside = ls.filter(is_external(domain));
    if outside.contains(l) {
        let m = choose|m: int| 0 <= m < outside.len() && outside[m] == l;
        ls.lemma_filter_pred(is_external(domain), m);
    }
}

/// A found link in which the domain being crawled does not occur joins the
/// queue of other domains and is not routed to the domain's own queue.
pub proof fn lemma_link_without_domain_goes_external(
    v: CrawlerView,
    domain: Seq<char>,
    ls: Seq<Seq<char>>,
    l: Seq<char>,
)
    requires
        ls.contains(l),
        !contains_piece(l, domain),
    ensures
        after_route(v, domain, ls).external_queue.contains(l),
        !ls.filter(is_internal(domain)).contains(l),
{
    let j = choose|j: int| 0 <= j < ls.len() && ls[j] == l;
    ls.lemma_filter_contains(is_external(domain), j);
    let outside = ls.filter(is_external(domain));
    let k = choose|k: int| 0 <= k < outside.len() && outside[k] == l;
    let q = after_route(v, domain, ls).external_queue;
    assert(q[v.external_queue.len() + k] == l);
    let inside = ls.filter(is_internal(domain));
    if inside.contains(l) {
        let m = choose|m: int| 0 <= m < inside.len() && inside[m] == l;
        ls.lemma_filter_pred(is_internal(domain), m);
    }
}

/// Every link found on a page goes to exactly one of the two queues.
pub proof fn lemma_routing_keeps_every_link(ls: Seq<Seq<char>>, domain: Seq<char>)
    ensures
        ls.filter(is_internal(domain)).len() + ls.filter(is_external(domain)).len() == ls.len(),
    decreases ls.len(),
{
    reveal(Seq::filter);
    if ls.len() > 0 {
        lemma_routing_keeps_every_link(ls.drop_last(), domain);
    }
}

} // verus!
