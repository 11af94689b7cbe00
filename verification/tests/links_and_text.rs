use rust_crawler::command::{command_of, command_text, Command};
use rust_crawler::crawl::links::{index_line, index_paths, is_skipped_resource, page_file_name, read_index};
use rust_crawler::text::{contains_chars, ends_with_chars, split_chars, trimmed, trimmed_end, utf8_width};

fn chars(s: &str) -> Vec<char> {
    s.chars().collect()
}

fn text(v: &[char]) -> String {
    v.iter().collect()
}

#[test]
fn file_name_of_a_page_link() {
    assert_eq!(
        page_file_name("https://example.com/a/b?x=1#frag").unwrap(),
        "example.com.a.b.x=1.txt"
    );
}

#[test]
fn file_name_drops_trailing_white_space() {
    assert_eq!(page_file_name("https://example.com/page \n").unwrap(), "example.com.page.txt");
}

#[test]
fn file_name_of_a_link_of_eight_bytes_is_the_extension() {
    assert_eq!(page_file_name("http://a").unwrap(), ".txt");
}

#[test]
fn link_shorter_than_eight_bytes_has_no_file_name() {
    assert!(page_file_name("ftp://").is_none());
}

#[test]
fn link_with_an_early_hash_has_no_file_name() {
    assert!(page_file_name("https#//example.com").is_none());
}

#[test]
fn link_whose_eighth_byte_is_inside_a_character_has_no_file_name() {
    assert!(page_file_name("https:/\u{e9}a").is_none());
    assert_eq!(page_file_name("https:/\u{e9}ab").is_none(), true);
}

#[test]
fn resources_that_are_not_pages_are_skipped() {
    assert!(is_skipped_resource("https://x.org/style.css"));
    assert!(is_skipped_resource("https://x.org/app.js"));
    assert!(is_skipped_resource("https://x.org/paper.pdf"));
    assert!(is_skipped_resource("https://x.org/font.ttf"));
    assert!(is_skipped_resource("https://x.org/mod.wasm"));
    assert!(is_skipped_resource("https://x.org/a.jpg"));
    assert!(is_skipped_resource("https://x.org/a.png"));
    assert!(is_skipped_resource("https://x.org/a.bmp"));
    assert!(is_skipped_resource("https://x.org/favicon.ico"));
    assert!(!is_skipped_resource("https://x.org/page.html"));
    assert!(!is_skipped_resource("https://x.org/"));
}

#[test]
fn index_line_of_a_page() {
    assert_eq!(index_line("https://a.com/p  ", "a.com.p.txt"), "https://a.com/p|a.com.p.txt\n");
}

#[test]
fn reading_the_index_stops_at_an_empty_row() {
    let es = read_index("u1|p1\nu2|p2\n\nu3|p3\n", true).unwrap();
    assert_eq!(es, vec![("u1".to_string(), "p1".to_string()), ("u2".to_string(), "p2".to_string())]);
}

#[test]
fn reading_the_index_can_pass_over_empty_rows() {
    let es = read_index("u1|p1\n\nu3|p3\n", false).unwrap();
    assert_eq!(es, vec![("u1".to_string(), "p1".to_string()), ("u3".to_string(), "p3".to_string())]);
}

#[test]
fn row_without_a_bar_is_corrupted() {
    assert!(read_index("u1p1\n", true).is_none());
    assert!(read_index("u1|p1\nbroken", false).is_none());
    assert!(read_index("u1|p1\n\nbroken", true).is_some());
}

#[test]
fn row_with_more_bars_reads_its_first_two_fields() {
    let es = read_index("a|b|c\n", true).unwrap();
    assert_eq!(es, vec![("a".to_string(), "b".to_string())]);
}

#[test]
fn index_lines_read_back_as_their_entries() {
    let mut content = String::new();
    content.push_str(&index_line("https://a.com/x \t", "a.com.x.txt"));
    content.push_str(&index_line("https://b.org/y", "b.org.y.txt"));
    for stop in [true, false] {
        let es = read_index(&content, stop).unwrap();
        assert_eq!(
            es,
            vec![
                ("https://a.com/x".to_string(), "a.com.x.txt".to_string()),
                ("https://b.org/y".to_string(), "b.org.y.txt".to_string())
            ]
        );
    }
}

#[test]
fn index_paths_lists_the_stored_names() {
    assert_eq!(index_paths("u1|p1\n\nu2|p2\n").unwrap(), vec!["p1".to_string(), "p2".to_string()]);
    assert!(index_paths("bad\n").is_none());
}

#[test]
fn splitting_gives_one_more_piece_than_delimiters() {
    let pieces = split_chars(&chars("a|b||c"), '|');
    let texts: Vec<String> = pieces.iter().map(|p| text(p)).collect();
    assert_eq!(texts, vec!["a", "b", "", "c"]);
    assert_eq!(split_chars(&chars(""), '|').len(), 1);
}

#[test]
fn trimming_removes_white_space_at_the_ends() {
    assert_eq!(text(&trimmed(&chars(" \t ab c \n"))), "ab c");
    assert_eq!(text(&trimmed_end(&chars(" ab \n"))), " ab");
    assert_eq!(text(&trimmed(&chars("   "))), "");
}

#[test]
fn looking_for_pieces() {
    assert!(contains_chars(&chars("https://example.com/x"), &chars("example.com")));
    assert!(!contains_chars(&chars("https://other.org/x"), &chars("example.com")));
    assert!(contains_chars(&chars("abc"), &chars("")));
    assert!(ends_with_chars(&chars("style.css"), &chars("css")));
    assert!(!ends_with_chars(&chars("ss"), &chars("css")));
}

#[test]
fn utf8_widths() {
    assert_eq!(utf8_width('a'), 1);
    assert_eq!(utf8_width('\u{e9}'), 2);
    assert_eq!(utf8_width('\u{20ac}'), 3);
    assert_eq!(utf8_width('\u{1F600}'), 4);
}

#[test]
fn commands_are_read_without_case_or_trailing_space() {
    assert_eq!(command_text("CrAwL \n"), "crawl");
    assert_eq!(command_of("CrAwL \n"), Command::Crawl);
    assert_eq!(command_of("query\n"), Command::Query);
    assert_eq!(command_of("TF-IDF\n"), Command::TfIdf);
    assert_eq!(command_of(" crawl\n"), Command::Unknown);
    assert_eq!(command_of("search\n"), Command::Unknown);
}
