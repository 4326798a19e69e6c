use arxiv_search::{normalize_feed, parse_feed, parse_feed_doc, Author, Entry, Feed, SearchError};

#[test]
fn parse_feed_parses_single_entry() {
    let xml = r#"
        <feed xmlns="http://www.w3.org/2005/Atom">
            <entry>
                <title>Test Paper</title>
                <summary>Test Abstract</summary>
                <id>http://arxiv.org/abs/1234.5678</id>
                <author>
                    <name>John Doe</name>
                </author>
            </entry>
        </feed>
        "#;

    let papers = parse_feed(xml).unwrap();

    assert_eq!(papers.len(), 1);
    assert_eq!(papers[0].title, "Test Paper");
    assert_eq!(papers[0].abstract_text, "Test Abstract");
    assert_eq!(papers[0].authors[0], "John Doe");
    assert_eq!(papers[0].url, "http://arxiv.org/abs/1234.5678");
}

#[test]
fn parse_feed_handles_empty_feed() {
    let xml = r#"
    <feed xmlns="http://www.w3.org/2005/Atom">
    </feed>
    "#;

    let papers = parse_feed(xml).unwrap();
    assert!(papers.is_empty());
}

#[test]
fn parse_feed_trims_title_and_summary() {
    let xml = "<feed><entry><title>  Spaced  Title \t</title><summary>\n  inner   spaces kept  \n</summary><id>u:1</id><author><name> Ann </name></author></entry></feed>";
    let papers = parse_feed(xml).unwrap();
    assert_eq!(papers[0].title, "Spaced  Title");
    assert_eq!(papers[0].abstract_text, "inner   spaces kept");
    // author names are copied verbatim, not trimmed
    assert_eq!(papers[0].authors[0], " Ann ");
}

#[test]
fn parse_feed_preserves_entry_order() {
    let xml = "<feed>\
        <entry><title>A</title><summary>a</summary><id>1</id><author><name>x</name></author></entry>\
        <entry><title>B</title><summary>b</summary><id>2</id><author><name>y</name></author></entry>\
        </feed>";
    let papers = parse_feed(xml).unwrap();
    assert_eq!(papers.len(), 2);
    assert_eq!(papers[0].title, "A");
    assert_eq!(papers[1].title, "B");

    let xml_swapped = "<feed>\
        <entry><title>B</title><summary>b</summary><id>2</id><author><name>y</name></author></entry>\
        <entry><title>A</title><summary>a</summary><id>1</id><author><name>x</name></author></entry>\
        </feed>";
    let swapped = parse_feed(xml_swapped).unwrap();
    assert_eq!(swapped.len(), 2);
    assert_eq!(swapped[0].title, "B");
    assert_eq!(swapped[1].title, "A");
    assert_eq!(swapped[0].url, papers[1].url);
    assert_eq!(swapped[1].url, papers[0].url);
}

#[test]
fn parse_feed_keeps_authors_in_order() {
    let xml = "<feed><entry><title>t</title><summary>s</summary><id>i</id>\
        <author><name>First</name></author>\
        <author><name>Second</name></author>\
        <author><name>Third</name></author>\
        </entry></feed>";
    let papers = parse_feed(xml).unwrap();
    assert_eq!(papers[0].authors, vec!["First", "Second", "Third"]);
}

#[test]
fn parse_feed_rejects_entry_without_author() {
    let xml = "<feed><entry><title>t</title><summary>s</summary><id>i</id></entry></feed>";
    let r = parse_feed(xml);
    assert!(matches!(r, Err(SearchError::MalformedFeed)));
}

#[test]
fn parse_feed_rejects_entry_without_title() {
    let xml = "<feed><entry><summary>s</summary><id>i</id><author><name>n</name></author></entry></feed>";
    assert!(matches!(parse_feed(xml), Err(SearchError::MalformedFeed)));
}

#[test]
fn parse_feed_rejects_entry_without_summary() {
    let xml = "<feed><entry><title>t</title><id>i</id><author><name>n</name></author></entry></feed>";
    assert!(matches!(parse_feed(xml), Err(SearchError::MalformedFeed)));
}

#[test]
fn parse_feed_rejects_entry_without_id() {
    let xml = "<feed><entry><title>t</title><summary>s</summary><author><name>n</name></author></entry></feed>";
    assert!(matches!(parse_feed(xml), Err(SearchError::MalformedFeed)));
}

#[test]
fn parse_feed_rejects_author_without_name() {
    let xml = "<feed><entry><title>t</title><summary>s</summary><id>i</id><author><email>e</email></author></entry></feed>";
    assert!(matches!(parse_feed(xml), Err(SearchError::MalformedFeed)));
}

#[test]
fn parse_feed_rejects_empty_entry() {
    let xml = "<feed><entry></entry></feed>";
    assert!(matches!(parse_feed(xml), Err(SearchError::MalformedFeed)));
}

#[test]
fn parse_feed_rejects_duplicate_title() {
    let xml = "<feed><entry><title>t</title><title>t2</title><summary>s</summary><id>i</id><author><name>n</name></author></entry></feed>";
    assert!(matches!(parse_feed(xml), Err(SearchError::MalformedFeed)));
}

#[test]
fn parse_feed_rejects_unclosed_document() {
    let xml = "<feed><entry><title>t</title>";
    assert!(matches!(parse_feed(xml), Err(SearchError::MalformedFeed)));
}

#[test]
fn parse_feed_rejects_mismatched_close_tag() {
    let xml = "<feed><entry><title>t</titl></entry></feed>";
    assert!(matches!(parse_feed(xml), Err(SearchError::MalformedFeed)));
}

#[test]
fn parse_feed_rejects_plain_text() {
    assert!(matches!(parse_feed("not xml at all"), Err(SearchError::MalformedFeed)));
    assert!(matches!(parse_feed(""), Err(SearchError::MalformedFeed)));
}

#[test]
fn parse_feed_skips_unknown_elements() {
    let xml = "<feed xmlns=\"http://www.w3.org/2005/Atom\">\
        <link href=\"http://example.org/\"/>\
        <updated>2024-01-01T00:00:00Z</updated>\
        <entry>\
        <title>t</title>\
        <published>2024-01-01</published>\
        <summary>s</summary>\
        <id>i</id>\
        <category term=\"cs.LO\"/>\
        <author><name>n</name><affiliation>somewhere</affiliation></author>\
        <extra><nested><deep>x</deep></nested></extra>\
        </entry></feed>";
    let papers = parse_feed(xml).unwrap();
    assert_eq!(papers.len(), 1);
    assert_eq!(papers[0].title, "t");
    assert_eq!(papers[0].authors, vec!["n"]);
}

#[test]
fn parse_feed_allows_xml_prolog() {
    let xml = "<?xml version=\"1.0\" encoding=\"UTF-8\"?>\n<feed>\
        <entry><title>t</title><summary>s</summary><id>i</id><author><name>n</name></author></entry>\
        </feed>";
    let papers = parse_feed(xml).unwrap();
    assert_eq!(papers.len(), 1);
}

#[test]
fn parse_feed_rejects_trailing_garbage() {
    let xml = "<feed></feed>extra";
    assert!(matches!(parse_feed(xml), Err(SearchError::MalformedFeed)));
}

#[test]
fn parse_feed_decodes_predefined_entities() {
    let xml = "<feed><entry><title>Graphs &amp; Networks</title>\
        <summary>&lt;p&gt; &quot;q&quot; &apos;a&apos;</summary>\
        <id>u?a=1&amp;b=2</id><author><name>O&apos;Brien</name></author></entry></feed>";
    let papers = parse_feed(xml).unwrap();
    assert_eq!(papers[0].title, "Graphs & Networks");
    assert_eq!(papers[0].abstract_text, "<p> \"q\" 'a'");
    assert_eq!(papers[0].url, "u?a=1&b=2");
    assert_eq!(papers[0].authors[0], "O'Brien");
}

#[test]
fn parse_feed_decodes_numeric_references() {
    let xml = "<feed><entry><title>&#65;&#x42;&#X63; caf&#xE9;</title><summary>s</summary>\
        <id>i</id><author><name>n</name></author></entry></feed>";
    let papers = parse_feed(xml).unwrap();
    assert_eq!(papers[0].title, "ABc caf\u{e9}");
}

#[test]
fn parse_feed_rejects_bad_references() {
    let entry = |title: &str| {
        format!(
            "<feed><entry><title>{title}</title><summary>s</summary><id>i</id>\
             <author><name>n</name></author></entry></feed>"
        )
    };
    // unknown entity name
    assert!(matches!(parse_feed(&entry("a &unknown; b")), Err(SearchError::MalformedFeed)));
    // bare ampersand, never terminated
    assert!(matches!(parse_feed(&entry("a & b")), Err(SearchError::MalformedFeed)));
    // surrogate code point
    assert!(matches!(parse_feed(&entry("&#xD800;")), Err(SearchError::MalformedFeed)));
    // beyond the last code point
    assert!(matches!(parse_feed(&entry("&#1114112;")), Err(SearchError::MalformedFeed)));
    // empty numeric reference
    assert!(matches!(parse_feed(&entry("&#x;")), Err(SearchError::MalformedFeed)));
}

#[test]
fn parse_feed_skips_comments() {
    let xml = "<feed><!-- between entries -->\
        <entry><!-- inside entry --><title>t<!-- inside text -->x</title><summary>s</summary>\
        <id>i</id><author><!-- here too --><name>n</name></author></entry>\
        </feed>";
    let papers = parse_feed(xml).unwrap();
    assert_eq!(papers[0].title, "tx");
}

#[test]
fn parse_feed_reads_cdata_literally() {
    let xml = "<feed><entry><title>foo <![CDATA[a<b & c]]> bar</title><summary>s</summary>\
        <id>i</id><author><name>n</name></author></entry></feed>";
    let papers = parse_feed(xml).unwrap();
    assert_eq!(papers[0].title, "foo a<b & c bar");
}

#[test]
fn parse_feed_allows_bom_doctype_and_comment_prolog() {
    let xml = "\u{feff}<?xml version=\"1.0\"?>\n<!-- a feed -->\n<!DOCTYPE feed>\n<feed>\
        <entry><title>t</title><summary>s</summary><id>i</id><author><name>n</name></author></entry>\
        </feed>";
    let papers = parse_feed(xml).unwrap();
    assert_eq!(papers.len(), 1);

    let trailing = "<feed></feed>\n<!-- served from cache -->";
    assert!(parse_feed(trailing).unwrap().is_empty());
}

#[test]
fn parse_feed_checks_close_tags_in_skipped_elements() {
    let bad = "<feed><extra><a></b></a></extra></feed>";
    assert!(matches!(parse_feed(bad), Err(SearchError::MalformedFeed)));
    let good = "<feed><extra><a><b>x</b></a></extra></feed>";
    assert!(parse_feed(good).unwrap().is_empty());
}

#[test]
fn parse_feed_trims_unicode_whitespace() {
    let xml = "<feed><entry><title>\u{a0}\u{2003} padded \u{a0}</title><summary>s</summary>\
        <id>i</id><author><name>n</name></author></entry></feed>";
    let papers = parse_feed(xml).unwrap();
    assert_eq!(papers[0].title, "padded");
}

#[test]
fn parse_feed_doc_absent_entries_is_none() {
    let feed = parse_feed_doc("<feed></feed>").unwrap();
    assert!(feed.entry.is_none());

    let feed = parse_feed_doc(
        "<feed><entry><title>t</title><summary>s</summary><id>i</id><author><name>n</name></author></entry></feed>",
    )
    .unwrap();
    let entries = feed.entry.unwrap();
    assert_eq!(entries.len(), 1);
    assert_eq!(entries[0].title, "t");
    assert_eq!(entries[0].author[0].name, "n");
}

#[test]
fn normalize_feed_empty_variants_give_no_papers() {
    let absent = Feed { entry: None };
    assert!(normalize_feed(&absent).is_empty());

    let present_empty = Feed { entry: Some(Vec::new()) };
    assert!(normalize_feed(&present_empty).is_empty());
}

#[test]
fn normalize_feed_maps_fields() {
    let feed = Feed {
        entry: Some(vec![Entry {
            title: "  a title ".to_string(),
            summary: " an abstract ".to_string(),
            id: "http://example.org/abs/1".to_string(),
            author: vec![
                Author { name: "A".to_string() },
                Author { name: "B".to_string() },
            ],
        }]),
    };
    let papers = normalize_feed(&feed);
    assert_eq!(papers.len(), 1);
    assert_eq!(papers[0].title, "a title");
    assert_eq!(papers[0].abstract_text, "an abstract");
    assert_eq!(papers[0].authors, vec!["A", "B"]);
    assert_eq!(papers[0].url, "http://example.org/abs/1");
}
