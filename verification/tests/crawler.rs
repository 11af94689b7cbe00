use rust_crawler::crawl::crawler::{Admission, CrawlSession, Crawler, CrawlerError, NextLink, PageOutcome};
use rust_crawler::crawl::web::robots_body_readable;
use rust_crawler::crawl::page::{build_hash_line, count_terms, search_terms, spaced_text, stem_word};
use rust_crawler::index::hash::FileHasher;
use rust_crawler::index::lexem::parse_to_lexem;

fn strings(v: &[&str]) -> Vec<String> {
    v.iter().map(|s| s.to_string()).collect()
}

fn session(domain: &str) -> CrawlSession {
    CrawlSession { domain: domain.to_string(), crawled: 0, count: 1 }
}

#[test]
fn crawler_from_an_empty_index() {
    let c = Crawler::try_new("").unwrap();
    assert!(c.keys_order().is_empty());
    assert_eq!(c.pages_count(), 0);
    assert_eq!(c.browsed_count(), 0);
}

#[test]
fn crawler_resumes_from_the_index_up_to_an_empty_row() {
    let mut c = Crawler::try_new("https://a.com/x|a.com.x.txt\n\nbroken\n").unwrap();
    assert_eq!(c.keys_order(), &strings(&["a.com.x.txt"]));
    assert!(matches!(c.try_can_parse("https://a.com/x"), Admission::Refused));
}

#[test]
fn crawler_refuses_a_corrupted_index() {
    assert_eq!(Crawler::try_new("no bar here\n").err(), Some(CrawlerError::IndexCorrupted));
}

#[test]
fn crawl_starts_on_the_domain_of_its_link() {
    let mut c = Crawler::try_new("").unwrap();
    let s = c.try_begin("https://example.com/start".to_string(), 3).unwrap();
    assert_eq!(s.domain, "example.com");
    assert_eq!((s.crawled, s.count), (0, 3));
    assert!(c.try_begin("no url at all".to_string(), 3).is_none());
    assert!(c.try_begin("http://127.0.0.1/x".to_string(), 3).is_none());
}

#[test]
fn links_come_first_in_first_out_and_then_run_out() {
    let mut c = Crawler::try_new("").unwrap();
    let mut s = c.try_begin("https://example.com/start".to_string(), 3).unwrap();
    let page = "<a href=\"/one\">1</a> <a href='/two'>2</a>";
    assert!(c.try_route_links(&s, "https://example.com/start", page));
    let mut seen = Vec::new();
    loop {
        match c.try_next_link(&mut s) {
            NextLink::Link(l) => seen.push(l),
            NextLink::Exhausted => break,
            NextLink::NoDomain(l) => panic!("no domain: {}", l),
        }
    }
    assert_eq!(
        seen,
        strings(&["https://example.com/start", "https://example.com/one", "https://example.com/two"])
    );
}

#[test]
fn links_of_other_domains_wait_and_switch_the_domain() {
    let mut c = Crawler::try_new("").unwrap();
    let mut s = session("example.com");
    assert!(c.try_route_links(&s, "https://other.org/page", "<a href=\"/x\">x</a>"));
    match c.try_next_link(&mut s) {
        NextLink::Link(l) => assert_eq!(l, "https://other.org/x"),
        other => panic!("{:?}", other),
    }
    assert_eq!(s.domain, "other.org");
    assert!(matches!(c.try_next_link(&mut s), NextLink::Exhausted));
}

#[test]
fn link_that_cannot_be_joined_queues_nothing() {
    let mut c = Crawler::try_new("").unwrap();
    let mut s = session("example.com");
    assert!(!c.try_route_links(&s, "not a base", "<a href=\"/x\">x</a>"));
    assert!(matches!(c.try_next_link(&mut s), NextLink::Exhausted));
}

#[test]
fn resources_and_known_links_are_refused() {
    let mut c = Crawler::try_new("").unwrap();
    assert!(matches!(c.try_can_parse("https://example.com/style.css"), Admission::Refused));
    match c.try_can_parse("https://example.com/page") {
        Admission::FetchRobots { domain, url } => {
            assert_eq!(domain, "example.com");
            assert_eq!(url, "example.com/robots.txt");
        },
        other => panic!("{:?}", other),
    }
    assert!(matches!(c.try_can_parse("https://example.com/page"), Admission::Refused));
}

#[test]
fn links_without_a_domain_are_refused_or_unparsable() {
    let mut c = Crawler::try_new("").unwrap();
    assert!(matches!(c.try_can_parse("http://127.0.0.1/x"), Admission::Refused));
    assert!(matches!(c.try_can_parse("::not a url"), Admission::Unparsable));
}

#[test]
fn robots_rules_are_kept_for_their_domain() {
    let mut c = Crawler::try_new("").unwrap();
    assert!(matches!(c.try_can_parse("https://example.com/a"), Admission::FetchRobots { .. }));
    let rules = "User-agent: *\nDisallow: /private\n".to_string();
    assert_eq!(c.can_parse_with_robots("https://example.com/a", "example.com".to_string(), Some(rules)), Some(true));
    assert!(matches!(c.try_can_parse("https://example.com/private/b"), Admission::Decided(false)));
    assert!(matches!(c.try_can_parse("https://example.com/c"), Admission::Decided(true)));
}

#[test]
fn missing_robots_rules_allow_everything() {
    let mut c = Crawler::try_new("").unwrap();
    assert_eq!(c.can_parse_with_robots("https://example.com/private", "example.com".to_string(), None), Some(true));
    assert!(matches!(c.try_can_parse("https://example.com/private/x"), Admission::Decided(true)));
}

#[test]
fn words_of_a_page() {
    let c = Crawler::try_new("").unwrap();
    let page = "<html><body>Hello World, the cat a!</body><p>x1y</p></html>";
    assert_eq!(c.page_words(page), strings(&["hello", "world", "the", "cat", "x1y"]));
}

#[test]
fn page_record_counts_terms_and_gives_the_texts() {
    let mut c = Crawler::try_new("").unwrap();
    let mut h = FileHasher::new();
    let words = strings(&["house", "river", "house"]);
    let files = c.record_page(&mut h, "https://a.com/p ", "a.com.p.txt", &words);
    assert_eq!(files.parsed, "house river house ");
    assert_eq!(files.stemmed, "hous river hous ");
    assert_eq!(files.index_line, "https://a.com/p|a.com.p.txt\n");
    assert_eq!(c.keys_order(), &strings(&["a.com.p.txt"]));
    assert_eq!(
        c.tf_counts(),
        &vec![("a.com.p.txt".to_string(), vec![("hous".to_string(), 2), ("river".to_string(), 1)])]
    );
    assert_eq!(c.idf_counts(), &vec![("hous".to_string(), 1), ("river".to_string(), 1)]);
    assert_eq!((c.pages_count(), c.browsed_count()), (1, 1));
    assert_eq!(h.len(), 1);
    let words2 = strings(&["river", "river"]);
    c.record_page(&mut h, "https://a.com/q", "a.com.q.txt", &words2);
    assert_eq!(c.idf_counts(), &vec![("hous".to_string(), 1), ("river".to_string(), 2)]);
    assert_eq!(h.len(), 2);
}

#[test]
fn session_counts_stored_pages() {
    let mut s = CrawlSession { domain: "a.com".to_string(), crawled: 0, count: 2 };
    assert!(!s.page_crawled());
    assert!(s.page_crawled());
    assert_eq!(s.crawled, 2);
}

#[test]
fn search_terms_are_stemmed_words() {
    assert_eq!(search_terms(" houses  rivers\n"), strings(&["hous", "river"]));
    assert!(search_terms("   ").is_empty());
}

#[test]
fn stem_of_a_word() {
    assert_eq!(stem_word("running"), "run");
}

#[test]
fn term_counts_and_page_counts() {
    let mut idf = vec![("a".to_string(), 4u32)];
    let tf = count_terms(&strings(&["b", "a", "b", "c", "b"]), &mut idf);
    assert_eq!(tf, vec![("b".to_string(), 3), ("a".to_string(), 1), ("c".to_string(), 1)]);
    assert_eq!(idf, vec![("a".to_string(), 5), ("b".to_string(), 1), ("c".to_string(), 1)]);
}

#[test]
fn page_text_is_words_followed_by_spaces() {
    assert_eq!(spaced_text(&strings(&["ab", "cd"])), "ab cd ");
    assert_eq!(spaced_text(&Vec::new()), "");
}

fn numbered_words(n: usize) -> Vec<String> {
    (0..n)
        .map(|i| {
            let a = (b'a' + (i / 676) as u8) as char;
            let b = (b'a' + ((i / 26) % 26) as u8) as char;
            let c = (b'a' + (i % 26) as u8) as char;
            format!("w{}{}{}", a, b, c)
        })
        .collect()
}

#[test]
fn hash_line_has_a_summary_box_and_one_box_per_cluster() {
    let words = numbered_words(40);
    let line = build_hash_line(&words);
    assert_eq!(line.len(), 3);
    assert_eq!(line[1].get_ptr(), 0);
    assert_eq!(line[2].get_ptr(), 32 * 5);
    for (i, w) in words.iter().enumerate() {
        assert!(line[0].match_hashes(w));
        assert!(line[1 + i / 32].match_hashes(w));
    }
    assert_eq!(build_hash_line(&Vec::new()).len(), 2);
}

#[test]
fn stored_page_is_found_by_each_of_its_words() {
    let words = numbered_words(70);
    let mut h = FileHasher::new();
    h.add(build_hash_line(&words), "page.txt");
    let text = spaced_text(&words);
    for w in &words {
        let q = parse_to_lexem(&format!("equals {}\n", w)).unwrap();
        assert_eq!(h.look_out_candidates(&q), vec![0]);
        assert!(h.look_out_confirm(0, &q, text.as_bytes()));
    }
    let absent = parse_to_lexem("equals wzzz\n").unwrap();
    assert_eq!(h.try_look_out_confirm(0, &absent, text.as_bytes()), Some(false));
}

fn page_of(words: &[String]) -> String {
    let mut page = String::from("<html><body><a href=\"/next\">next</a><p>");
    for w in words {
        page.push_str(w);
        page.push(' ');
    }
    page.push_str("</p></body></html>");
    page
}

#[test]
fn page_without_file_name_changes_nothing() {
    let mut c = Crawler::try_new("").unwrap();
    let mut h = FileHasher::new();
    let mut s = session("example.com");
    let out = c.try_store_page(&mut h, &mut s, "https#x", "<a href=\"/y\">y</a>");
    assert!(matches!(out, PageOutcome::NoFileName));
    assert!(matches!(c.try_next_link(&mut s), NextLink::Exhausted));
}

#[test]
fn page_with_unjoinable_links_changes_nothing() {
    let mut c = Crawler::try_new("").unwrap();
    let mut h = FileHasher::new();
    let mut s = session("example.com");
    let out = c.try_store_page(&mut h, &mut s, "zzzzzzzz not a url", "<a href=\"/y\">y</a>");
    match out {
        PageOutcome::UnjoinableLink { name } => assert_eq!(name, " not a url.txt"),
        other => panic!("{:?}", other),
    }
}

#[test]
fn short_page_queues_links_but_is_not_stored() {
    let mut c = Crawler::try_new("").unwrap();
    let mut h = FileHasher::new();
    let mut s = session("example.com");
    let out = c.try_store_page(&mut h, &mut s, "https://example.com/a", &page_of(&strings(&["word", "more"])));
    match out {
        PageOutcome::TooFewWords { name, words } => {
            assert_eq!(name, "example.com.a.txt");
            assert_eq!(words, 3);
        },
        other => panic!("{:?}", other),
    }
    assert_eq!(h.len(), 0);
    assert_eq!(c.pages_count(), 0);
    match c.try_next_link(&mut s) {
        NextLink::Link(l) => assert_eq!(l, "https://example.com/next"),
        other => panic!("{:?}", other),
    }
}

#[test]
fn page_with_a_short_word_is_not_stored() {
    let mut c = Crawler::try_new("").unwrap();
    let mut h = FileHasher::new();
    let mut s = session("example.com");
    let mut words = numbered_words(1100);
    words.push("the".to_string());
    let out = c.try_store_page(&mut h, &mut s, "https://example.com/b", &page_of(&words));
    assert!(matches!(out, PageOutcome::Unstorable { words: 1102, .. }));
    assert_eq!(h.len(), 0);
}

#[test]
fn large_page_is_stored_and_counted() {
    let mut c = Crawler::try_new("").unwrap();
    let mut h = FileHasher::new();
    let mut s = CrawlSession { domain: "example.com".to_string(), crawled: 0, count: 1 };
    let words = numbered_words(1100);
    let out = c.try_store_page(&mut h, &mut s, "https://example.com/c", &page_of(&words));
    match out {
        PageOutcome::Stored { name, words: n, files, done } => {
            assert_eq!(name, "example.com.c.txt");
            assert_eq!(n, 1101);
            assert!(files.parsed.starts_with("next waaa waab "));
            assert_eq!(files.index_line, "https://example.com/c|example.com.c.txt\n");
            assert!(done);
        },
        other => panic!("{:?}", other),
    }
    assert_eq!(h.len(), 1);
    assert_eq!(c.pages_count(), 1);
    assert_eq!(s.crawled, 1);
    assert_eq!(c.keys_order(), &strings(&["example.com.c.txt"]));
}

fn long_line_body() -> String {
    let mut body = "a".repeat(16663);
    body.push_str("\u{e9}\n\u{e9}\n");
    body
}

#[test]
fn robots_rules_with_skipped_wide_characters_before_a_line_break_cannot_be_read() {
    assert!(!robots_body_readable(&long_line_body()));
    assert!(robots_body_readable(&"a".repeat(20000)));
    assert!(robots_body_readable(&"\u{e9}".repeat(8400)));
    assert!(!robots_body_readable(&format!("{}\n", "\u{e9}".repeat(8400))));
    assert!(robots_body_readable(&format!("{}\n", "\u{e9}".repeat(8000))));
    assert!(robots_body_readable(&format!("Disallow: /\u{e9}\n{}\n", "a".repeat(20000))));
    assert!(robots_body_readable("User-agent: *\nDisallow: /x\n"));
}

#[test]
fn rules_with_long_ascii_lines_are_read_and_kept() {
    let mut c = Crawler::try_new("").unwrap();
    let body = format!("User-agent: *\nDisallow: /\u{e9}\n{}\n", "a".repeat(20000));
    assert_eq!(c.can_parse_with_robots("https://example.com/a", "example.com".to_string(), Some(body)), Some(true));
    assert!(matches!(c.try_can_parse("https://example.com/b"), Admission::Decided(true)));
}

#[test]
fn unreadable_robots_rules_are_not_kept() {
    let mut c = Crawler::try_new("").unwrap();
    assert!(c.can_parse_with_robots("https://example.com/a", "example.com".to_string(), Some(long_line_body())).is_none());
    assert!(matches!(c.try_can_parse("https://example.com/b"), Admission::FetchRobots { .. }));
}

#[test]
fn crawl_steps_on_inputs_that_the_crawl_accepts() {
    let mut c = Crawler::new("https://a.com/x|a.com.x.txt\n");
    assert_eq!(c.keys_order(), &strings(&["a.com.x.txt"]));
    let mut s = c.begin("https://example.com/start".to_string(), 1);
    assert_eq!(s.domain, "example.com");
    assert_eq!(c.next_link(&mut s), Some("https://example.com/start".to_string()));
    assert!(c.next_link(&mut s).is_none());
    assert!(matches!(c.can_parse("https://a.com/x"), Admission::Refused));
    assert!(matches!(c.can_parse("https://example.com/start"), Admission::FetchRobots { .. }));
    c.route_links(&s, "https://other.org/p", "<a href=\"/q\">q</a>");
    assert_eq!(c.next_link(&mut s), Some("https://other.org/q".to_string()));
    assert_eq!(s.domain, "other.org");
    let mut h = FileHasher::new();
    let words = numbered_words(1100);
    match c.store_page(&mut h, &mut s, "https://other.org/q", &page_of(&words)) {
        PageOutcome::Stored { name, done, .. } => {
            assert_eq!(name, "other.org.q.txt");
            assert!(done);
        },
        other => panic!("{:?}", other),
    }
    match c.store_page(&mut h, &mut s, "https://other.org/r", "<p>few words</p>") {
        PageOutcome::TooFewWords { words, .. } => assert_eq!(words, 2),
        other => panic!("{:?}", other),
    }
}
