//! The calls that the crawler makes into other crates: URL parsing,
//! regular expressions, robots.txt rules and word stemming. Each result is
//! named by a specification function of its arguments; these names are not
//! spelled out here.

use vstd::prelude::*;

use crate::text::{char_width, sub_chars, utf8_width};
use crate::unicode::chars_of;

verus! {

/// A stemming language.
#[derive(Clone, Copy, Debug)]
pub enum Language {
    English,
    Russian,
}

/// The views of a sequence of strings.
pub open spec fn string_views(v: Seq<String>) -> Seq<Seq<char>> {
    v.map_values(|s: String| s@)
}

/// The views of a sequence of optional strings.
pub open spec fn opt_string_views(v: Seq<Option<String>>) -> Seq<Option<Seq<char>>> {
    v.map_values(
        |o: Option<String>|
            match o {
                Some(s) => Some(s@),
                None => None,
            },
    )
}

/// What `url::Url::parse` and then `Url::domain` give for `link`: `None`
/// where `link` does not parse, else the domain of its host, `None` where the
/// host is missing or is an IP address.
pub uninterp spec fn url_domain_of(link: Seq<char>) -> Option<Option<Seq<char>>>;

/// What `url::Url::parse` of `base` and then `Url::join` with `href` give,
/// serialised: `None` where either fails.
pub uninterp spec fn url_join_of(base: Seq<char>, href: Seq<char>) -> Option<Seq<char>>;

/// Whether `regex::Regex::new` accepts `pattern`.
pub uninterp spec fn regex_valid(pattern: Seq<char>) -> bool;

/// The pieces of `text` between the matches of `pattern`, as `Regex::split` gives them.
pub uninterp spec fn regex_split_of(pattern: Seq<char>, text: Seq<char>) -> Seq<Seq<char>>;

/// For each match of `pattern` in `text`, in order (`Regex::captures_iter`),
/// the text of capture group `group`, `None` where the group took no part.
pub uninterp spec fn regex_group_of(pattern: Seq<char>, text: Seq<char>, group: usize) -> Seq<
    Option<Seq<char>>,
>;

/// Whether the robots.txt rules `body` let the user agent `agent` fetch `url`,
/// as `robotstxt::DefaultMatcher::one_agent_allowed_by_robots` decides it.
pub uninterp spec fn robots_allows(body: Seq<char>, agent: Seq<char>, url: Seq<char>) -> bool;

/// The stem of `word` by the Snowball stemmer of `lang` (`rust_stemmers::Stemmer::stem`).
pub uninterp spec fn stem_of(lang: Language, word: Seq<char>) -> Seq<char>;

/// Calls `url::Url::parse` on `link` and `Url::domain` on the result.
/// Trusted to give `url_domain_of(link)`.
#[verifier::external_body]
pub(crate) fn url_domain(link: &str) -> (r: Option<Option<String>>)
    ensures
        match r {
            Some(Some(d)) => url_domain_of(link@) == Some(Some(d@)),
            Some(None) => url_domain_of(link@) == Some(None::<Seq<char>>),
            None => url_domain_of(link@) is None,
        },
{
    match url::Url::parse(link) {
        Ok(u) => match u.domain() {
            Some(d) => Some(Some(d.to_string())),
            None => Some(None),
        },
        Err(_) => None,
    }
}

/// Calls `url::Url::parse` on `base` and `Url::join` with `href`, and
/// serialises the joined URL. Trusted to give `url_join_of(base, href)`.
#[verifier::external_body]
pub(crate) fn url_join(base: &str, href: &str) -> (r: Option<String>)
    ensures
        match r {
            Some(s) => url_join_of(base@, href@) == Some(s@),
            None => url_join_of(base@, href@) is None,
        },
{
    match url::Url::parse(base) {
        Ok(b) => match b.join(href) {
            Ok(u) => Some(u.into()),
            Err(_) => None,
        },
        Err(_) => None,
    }
}

/// Calls `regex::Regex::new` on `pattern`. Trusted to say whether it accepts the pattern.
#[verifier::external_body]
pub(crate) fn regex_is_valid(pattern: &str) -> (r: bool)
    ensures
        r == regex_valid(pattern@),
{
    regex::Regex::new(pattern).is_ok()
}

/// Calls `Regex::split` with the compiled `pattern`. Trusted to give
/// `regex_split_of(pattern, text)`.
#[verifier::external_body]
pub(crate) fn regex_split(pattern: &str, text: &str) -> (r: Vec<String>)
    requires
        regex_valid(pattern@),
    ensures
        string_views(r@) == regex_split_of(pattern@, text@),
{
    let re = regex::Regex::new(pattern).unwrap();
    re.split(text).map(|piece| piece.to_string()).collect()
}

/// Calls `Regex::captures_iter` with the compiled `pattern` and takes
/// capture group `group` of each match. Trusted to give
/// `regex_group_of(pattern, text, group)`.
#[verifier::external_body]
pub(crate) fn regex_group(pattern: &str, text: &str, group: usize) -> (r: Vec<Option<String>>)
    requires
        regex_valid(pattern@),
    ensures
        opt_string_views(r@) == regex_group_of(pattern@, text@, group),
{
    let re = regex::Regex::new(pattern).unwrap();
    re.captures_iter(text).map(|c| c.get(group).map(|m| m.as_str().to_string())).collect()
}

/// The number of bytes of a line that the robots.txt parser keeps before it
/// skips the rest of the line.
pub const ROBOTS_LINE_LIMIT: usize = 16663;

/// The number of bytes of the run of characters at the end of `s` that holds
/// no line break (`\n` or `\r`).
pub open spec fn last_line_bytes(s: Seq<char>) -> nat
    decreases s.len(),
{
    if s.len() == 0 {
        0
    } else if s.last() == '\n' || s.last() == '\r' {
        0
    } else {
        last_line_bytes(s.drop_last()) + char_width(s.last())
    }
}

/// The number of leading characters that the parser passes over as a
/// byte-order mark: `\u{ef}`, `\u{bb}`, `\u{bf}`, each where the ones before
/// it came first.
pub open spec fn bom_len(s: Seq<char>) -> int {
    if s.len() > 0 && s[0] == '\u{ef}' {
        if s.len() > 1 && s[1] == '\u{bb}' {
            if s.len() > 2 && s[2] == '\u{bf}' {
                3
            } else {
                2
            }
        } else {
            1
        }
    } else {
        0
    }
}

/// The character at position `i` of `t` is skipped by the parser and takes
/// more than one byte: it is not ASCII and comes after at least
/// `ROBOTS_LINE_LIMIT` bytes of its line.
pub open spec fn skipped_wide(t: Seq<char>, i: int) -> bool {
    t[i] > '\u{7f}' && last_line_bytes(t.take(i)) >= ROBOTS_LINE_LIMIT
}

/// robots.txt rules that the matcher can read: past the byte-order mark, no
/// character that the parser skips and that takes more than one byte is
/// followed by a line break. The parser skips what comes after the first
/// `ROBOTS_LINE_LIMIT` bytes of a line and steps over each skipped character
/// as if it were one byte; at the next line break its slices can fall off a
/// character boundary.
pub open spec fn robots_readable(body: Seq<char>) -> bool {
    let t = body.skip(bom_len(body));
    forall|i: int, j: int|
        0 <= i < j < t.len() && #[trigger] skipped_wide(t, i) ==> #[trigger] t[j] != '\n' && t[j] != '\r'
}

/// Calls `robotstxt::DefaultMatcher::one_agent_allowed_by_robots`. Trusted
/// to give `robots_allows(body, agent, url)` for rules it can read.
#[verifier::external_body]
pub(crate) fn robots_allow(body: &str, agent: &str, url: &str) -> (r: bool)
    requires
        robots_readable(body@),
    ensures
        r == robots_allows(body@, agent@, url@),
{
    robotstxt::DefaultMatcher::default().one_agent_allowed_by_robots(body, agent, url)
}

/// Calls `rust_stemmers::Stemmer::stem` with the stemmer of `lang`. Trusted
/// to give `stem_of(lang, word)`.
#[verifier::external_body]
pub(crate) fn stem(lang: Language, word: &str) -> (r: String)
    ensures
        r@ == stem_of(lang, word@),
{
    let algorithm = match lang {
        Language::English => rust_stemmers::Algorithm::English,
        Language::Russian => rust_stemmers::Algorithm::Russian,
    };
    rust_stemmers::Stemmer::create(algorithm).stem(word).into_owned()
}

/// Whether the robots.txt rules `body` can be read (see `robots_readable`).
pub fn robots_body_readable(body: &str) -> (r: bool)
    ensures
        r == robots_readable(body@),
{
    let cs = chars_of(body);
    let n = cs.len();
    let mut bl: usize = 0;
    if n > 0 && cs[0] == '\u{ef}' {
        bl = 1;
        if n > 1 && cs[1] == '\u{bb}' {
            bl = 2;
            if n > 2 && cs[2] == '\u{bf}' {
                bl = 3;
            }
        }
    }
    assert(bl == bom_len(body@));
    let t = sub_chars(&cs, bl, n);
    assert(t@ =~= body@.skip(bom_len(body@)));
    let ghost tv = t@;
    let mut pending = false;
    let mut run: usize = 0;
    let mut k: usize = 0;
    assert(tv.take(0) =~= Seq::<char>::empty());
    while k < t.len()
        invariant
            k <= tv.len(),
            tv == t@,
            tv == body@.skip(bom_len(body@)),
            run as int == if last_line_bytes(tv.take(k as int)) >= ROBOTS_LINE_LIMIT {
                ROBOTS_LINE_LIMIT as int
            } else {
                last_line_bytes(tv.take(k as int)) as int
            },
            forall|i: int, j: int| 0 <= i < j < k && #[trigger] skipped_wide(tv, i) ==> #[trigger] tv[j] != '\n' && tv[j] != '\r',
            pending <==> exists|i: int| 0 <= i < k && #[trigger] skipped_wide(tv, i),
        decreases tv.len() - k,
    {
        let c = t[k];
        let ghost u = tv.take(k + 1);
        assert(u.drop_last() =~= tv.take(k as int));
        assert(u.last() == c);
        if c == '\n' || c == '\r' {
            if pending {
                let ghost i = choose|i: int| 0 <= i < k && #[trigger] skipped_wide(tv, i);
                assert(skipped_wide(tv, i) && tv[k as int] == c);
                return false;
            }
            run = 0;
            assert forall|i: int| 0 <= i < k + 1 implies !#[trigger] skipped_wide(tv, i) by {
                if i < k {
                } else {
                    assert(tv[i] == c);
                }
            }
        } else {
            if c > '\u{7f}' && run >= ROBOTS_LINE_LIMIT {
                assert(skipped_wide(tv, k as int));
                pending = true;
            } else {
                assert(!skipped_wide(tv, k as int));
            }
            if run < ROBOTS_LINE_LIMIT {
                let w = utf8_width(c);
                if run + w >= ROBOTS_LINE_LIMIT {
                    run = ROBOTS_LINE_LIMIT;
                } else {
                    run = run + w;
                }
            }
            assert forall|i: int, j: int| 0 <= i < j < k + 1 && #[trigger] skipped_wide(tv, i) implies #[trigger] tv[j] != '\n' && tv[j] != '\r' by {
                if j == k {
                    assert(tv[j] == c);
                }
            }
        }
        k = k + 1;
    }
    true
}

} // verus!
