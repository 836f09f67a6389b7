use arxiv_agent::parser::ArxivParser;
use arxiv_agent::records::ArxivError;
use arxiv_agent::records::Paper;
use arxiv_agent::tools::SearchArgs;

fn parse(doc: &str) -> Result<Vec<Paper>, ArxivError> {
    let mut parser = ArxivParser::default();
    parser.parse_response(doc)
}

#[test]
fn three_entries_in_document_order() {
    let doc = "<feed>\
        <entry><title>First</title></entry>\
        <entry><title>Second</title></entry>\
        <entry><title>Third</title></entry>\
        </feed>";
    let papers = parse(doc).unwrap();
    assert_eq!(papers.len(), 3);
    assert_eq!(papers[0].title, "First");
    assert_eq!(papers[1].title, "Second");
    assert_eq!(papers[2].title, "Third");
}

#[test]
fn authors_in_source_order_with_duplicates() {
    let doc = "<feed><entry>\
        <author>Ada</author><author>Bob</author><author>Ada</author>\
        </entry></feed>";
    let papers = parse(doc).unwrap();
    assert_eq!(papers.len(), 1);
    assert_eq!(papers[0].authors, vec!["Ada", "Bob", "Ada"]);
}

#[test]
fn categories_in_source_order_with_duplicates() {
    let doc = "<feed><entry>\
        <category term=\"cs.AI\"/><category term=\"cs.LG\"/><category term=\"cs.AI\"/>\
        </entry></feed>";
    let papers = parse(doc).unwrap();
    assert_eq!(papers[0].categories, vec!["cs.AI", "cs.LG", "cs.AI"]);
}

#[test]
fn buffers_reset_between_entries() {
    let doc = "<feed>\
        <entry><author>Ada</author><category term=\"cs.AI\"/></entry>\
        <entry><title>Empty</title></entry>\
        </feed>";
    let papers = parse(doc).unwrap();
    assert_eq!(papers.len(), 2);
    assert_eq!(papers[0].authors, vec!["Ada"]);
    assert!(papers[1].authors.is_empty());
    assert!(papers[1].categories.is_empty());
}

#[test]
fn zero_entries_yields_no_results() {
    let doc = "<feed><title>A feed without entries</title></feed>";
    let err = parse(doc).unwrap_err();
    assert!(matches!(err, ArxivError::NoResults));
}

#[test]
fn link_without_href_keeps_empty_url() {
    let doc = "<feed><entry><title>T</title><link rel=\"alternate\"/></entry></feed>";
    let papers = parse(doc).unwrap();
    assert_eq!(papers[0].url, "");
}

#[test]
fn link_href_is_normalized() {
    let doc = "<feed><entry>\
        <link href=\"http://arxiv.org/abs/1234.5678\"/>\
        </entry></feed>";
    let papers = parse(doc).unwrap();
    assert_eq!(papers[0].url, "https://arxiv.org/pdf/1234.5678.pdf");
}

#[test]
fn unterminated_tag_yields_syntax_error() {
    let doc = "<feed><entry><title>Broken</title";
    let err = parse(doc).unwrap_err();
    assert!(matches!(err, ArxivError::XmlParsing(_)));
}

#[test]
fn two_titles_last_one_wins() {
    let doc = "<feed><entry><title>Old</title><title>New</title></entry></feed>";
    let papers = parse(doc).unwrap();
    assert_eq!(papers[0].title, "New");
}

#[test]
fn summary_fills_abstract_text() {
    let doc = "<feed><entry><summary>An abstract.</summary></entry></feed>";
    let papers = parse(doc).unwrap();
    assert_eq!(papers[0].abstract_text, "An abstract.");
}

#[test]
fn surrounding_whitespace_of_text_is_trimmed() {
    let doc = "<feed><entry><title>\n  Spaced  \n</title></entry></feed>";
    let papers = parse(doc).unwrap();
    assert_eq!(papers[0].title, "Spaced");
}

#[test]
fn unknown_tags_are_ignored() {
    let doc = "<feed><entry>\
        <id>oai:x</id><title>Kept</title><published>2024</published>\
        </entry></feed>";
    let papers = parse(doc).unwrap();
    assert_eq!(papers.len(), 1);
    assert_eq!(papers[0].title, "Kept");
}

#[test]
fn invalid_utf8_text_is_a_decoding_error() {
    let mut parser = ArxivParser::default();
    parser.parse_start_event(&b"entry".to_vec());
    let err = parser.parse_text_event(&vec![0xffu8, 0xfe]).unwrap_err();
    assert!(matches!(err, ArxivError::Utf8Error));
}

#[test]
fn handlers_assemble_a_record_from_events() {
    let mut parser = ArxivParser::default();
    parser.parse_start_event(&b"entry".to_vec());
    parser.parse_start_event(&b"title".to_vec());
    parser.parse_text_event(&b"A Paper".to_vec()).unwrap();
    parser.parse_end_event(&b"title".to_vec()).unwrap();
    parser.parse_start_event(&b"author".to_vec());
    parser.parse_text_event(&b"Ada".to_vec()).unwrap();
    parser.parse_end_event(&b"author".to_vec()).unwrap();
    parser.parse_end_event(&b"entry".to_vec()).unwrap();
    assert_eq!(parser.papers.len(), 1);
    assert_eq!(parser.papers[0].title, "A Paper");
    assert_eq!(parser.papers[0].authors, vec!["Ada"]);
}

#[test]
fn text_outside_any_entry_is_ignored() {
    let doc = "<feed>stray text<entry><title>T</title></entry>more</feed>";
    let papers = parse(doc).unwrap();
    assert_eq!(papers.len(), 1);
    assert_eq!(papers[0].title, "T");
}

#[test]
fn entity_reference_is_kept_in_the_title() {
    let doc = "<feed><entry><title>&amp;</title></entry></feed>";
    let papers = parse(doc).unwrap();
    assert_eq!(papers[0].title, "&amp;");
}

#[test]
fn each_author_text_event_appends_an_author() {
    let doc = "<feed><entry><author>X &amp; Y</author></entry></feed>";
    let papers = parse(doc).unwrap();
    assert_eq!(papers[0].authors, vec!["X", "&amp;", "Y"]);
}

#[test]
fn later_text_event_of_one_element_replaces_title() {
    let doc = "<feed><entry><title>A<!-- note -->B</title></entry></feed>";
    let papers = parse(doc).unwrap();
    assert_eq!(papers[0].title, "B");
}

#[test]
fn character_reference_is_kept_in_the_abstract() {
    let doc = "<feed><entry><summary>&#38;</summary></entry></feed>";
    let papers = parse(doc).unwrap();
    assert_eq!(papers[0].abstract_text, "&#38;");
}

#[test]
fn dangling_ampersand_is_plain_text() {
    let doc = "<feed><entry><title>A & B</title></entry></feed>";
    let papers = parse(doc).unwrap();
    assert_eq!(papers[0].title, "& B");
}

#[test]
fn effective_max_results_defaults_to_five() {
    let args = SearchArgs { query: String::from("quantum"), max_results: None };
    assert_eq!(args.effective_max_results(), 5);
    let args = SearchArgs { query: String::from("quantum"), max_results: Some(7) };
    assert_eq!(args.effective_max_results(), 7);
}
