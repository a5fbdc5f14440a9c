use lms_server::documents::{ChunkConfig, DocumentParser, DocumentType, ParsedDocument, DocumentMetadata, PdfContent, Reading, TextChunker};

#[test]
fn test_chunk_empty_text() {
    let chunker = TextChunker::with_defaults();
    let chunks = chunker.chunk_text("").unwrap();
    assert_eq!(chunks.len(), 0);
}

#[test]
fn test_chunk_short_text() {
    let chunker = TextChunker::with_defaults();
    let text = "This is a short text.";
    let chunks = chunker.chunk_text(text).unwrap();

    assert_eq!(chunks.len(), 1);
    assert_eq!(chunks[0].text, text);
    assert_eq!(chunks[0].start_pos, 0);
    assert_eq!(chunks[0].end_pos, text.len());
    assert_eq!(chunks[0].index, 0);
}

#[test]
fn test_chunk_long_text() {
    let chunker = TextChunker::new(ChunkConfig {
        chunk_size: 100,
        overlap_size: 20,
        min_chunk_size: 30,
    });

    let text = "This is the first sentence. This is the second sentence. \
               This is the third sentence. This is the fourth sentence. \
               This is the fifth sentence. This is the sixth sentence. \
               This is the seventh sentence.";

    let chunks = chunker.chunk_text(text).unwrap();

    assert!(chunks.len() > 1);

    for (i, chunk) in chunks.iter().enumerate() {
        assert_eq!(chunk.index, i);
    }

    for chunk in &chunks {
        assert!(chunk.text.len() >= chunker.config.min_chunk_size);
    }
}

#[test]
fn test_chunk_overlap() {
    let chunker = TextChunker::new(ChunkConfig {
        chunk_size: 50,
        overlap_size: 15,
        min_chunk_size: 20,
    });

    let text = "First sentence. Second sentence. Third sentence. Fourth sentence.";
    let chunks = chunker.chunk_text(text).unwrap();

    if chunks.len() > 1 {
        assert!(chunks.len() >= 1);
    }
}

#[test]
fn test_chunk_unicode() {
    let chunker = TextChunker::with_defaults();
    let text = "This is English. これは日本語です。This is more English. さらに日本語。";
    let chunks = chunker.chunk_text(text).unwrap();

    assert!(!chunks.is_empty());
    for chunk in chunks {
        assert!(!chunk.text.is_empty());
    }
}

#[test]
fn test_chunk_positions() {
    let chunker = TextChunker::new(ChunkConfig {
        chunk_size: 50,
        overlap_size: 10,
        min_chunk_size: 20,
    });

    let text = "Sentence one. Sentence two. Sentence three. Sentence four.";
    let chunks = chunker.chunk_text(text).unwrap();

    for chunk in &chunks {
        assert!(chunk.end_pos > chunk.start_pos);
        assert!(chunk.end_pos <= text.len());
    }
}

#[test]
fn test_document_type_from_filename() {
    assert_eq!(DocumentType::from_filename("test.md"), DocumentType::Markdown);
    assert_eq!(DocumentType::from_filename("README.MD"), DocumentType::Markdown);
    assert_eq!(DocumentType::from_filename("file.txt"), DocumentType::Text);
    assert_eq!(DocumentType::from_filename("data.json"), DocumentType::Text);
}

#[test]
fn test_document_type_as_str() {
    assert_eq!(DocumentType::Text.as_str(), "txt");
    assert_eq!(DocumentType::Markdown.as_str(), "md");
}

#[test]
fn test_chunk_custom_config() {
    let config = ChunkConfig {
        chunk_size: 80,
        overlap_size: 15,
        min_chunk_size: 25,
    };

    let text = "A. B. C. D. E. F. G. H. I. J. K. L. M. N. O. P. Q. R. S. T. U. V. W. X. Y. Z.";
    let max_size = config.chunk_size * 2;
    let chunks = TextChunker::chunk_with_config(text, config).unwrap();

    assert!(!chunks.is_empty());
    for chunk in chunks {
        assert!(chunk.text.len() <= max_size);
    }
}

#[test]
fn chunk_config_default_values() {
    let c = ChunkConfig::default();
    assert_eq!(c.chunk_size, 1000);
    assert_eq!(c.overlap_size, 200);
    assert_eq!(c.min_chunk_size, 100);
}

#[test]
fn chunks_are_slices_of_the_text_at_their_offsets() {
    let chunker = TextChunker::new(ChunkConfig { chunk_size: 40, overlap_size: 25, min_chunk_size: 5 });
    let text = "One two three four. Five six seven eight. Nine ten eleven twelve. Thirteen fourteen.";
    let chunks = chunker.chunk_text(text).unwrap();
    assert!(chunks.len() > 1);
    let mut prev_start = 0;
    for (i, c) in chunks.iter().enumerate() {
        assert_eq!(c.index, i);
        assert!(c.start_pos < c.end_pos && c.end_pos <= text.len());
        assert_eq!(&text[c.start_pos..c.end_pos], c.text);
        assert!(c.start_pos >= prev_start);
        prev_start = c.start_pos;
    }
    assert_eq!(chunks[0].start_pos, 0);
    assert_eq!(chunks[chunks.len() - 1].end_pos, text.len());
}

#[test]
fn chunk_offsets_follow_the_sentences() {
    let chunker = TextChunker::new(ChunkConfig { chunk_size: 15, overlap_size: 0, min_chunk_size: 1 });
    let chunks = chunker.chunk_text("One two. Three four. Five six.").unwrap();
    let got: Vec<(&str, usize, usize, usize)> =
        chunks.iter().map(|c| (c.text.as_str(), c.start_pos, c.end_pos, c.index)).collect();
    assert_eq!(got, vec![("One two. ", 0, 9, 0), ("Three four. ", 9, 21, 1), ("Five six.", 21, 30, 2)]);
}

#[test]
fn short_tail_joins_the_last_chunk() {
    let chunker = TextChunker::new(ChunkConfig { chunk_size: 50, overlap_size: 15, min_chunk_size: 20 });
    let text = "First sentence. Second sentence. Third sentence. Fourth sentence.";
    let chunks = chunker.chunk_text(text).unwrap();
    assert_eq!(chunks.len(), 1);
    assert_eq!(chunks[0].start_pos, 0);
    assert_eq!(chunks[0].end_pos, 65);
    assert!(chunks[0].text.ends_with("Fourth sentence."));
    assert_eq!(chunks[0].text, text);
}

#[test]
fn chunk_sentences_uses_the_given_sentences() {
    let chunker = TextChunker::new(ChunkConfig { chunk_size: 10, overlap_size: 4, min_chunk_size: 2 });
    let sentences = vec!["abcdef ".to_string(), "gh ".to_string(), "ijklmn".to_string()];
    let chunks = chunker.chunk_sentences("abcdef gh ijklmn", &sentences, &[0, 7, 10]);
    let got: Vec<(&str, usize, usize)> = chunks.iter().map(|c| (c.text.as_str(), c.start_pos, c.end_pos)).collect();
    assert_eq!(got, vec![("abcdef gh ", 0, 10), ("gh ijklmn", 7, 16)]);
}

#[test]
fn document_type_of_pdf_and_docx() {
    assert_eq!(DocumentType::from_filename("Report.PDF"), DocumentType::Pdf);
    assert_eq!(DocumentType::from_filename("notes.docx"), DocumentType::Docx);
    assert_eq!(DocumentType::from_filename("guide.markdown"), DocumentType::Markdown);
    assert_eq!(DocumentType::Pdf.as_str(), "pdf");
    assert_eq!(DocumentType::Docx.as_str(), "docx");
}

#[test]
fn parse_text_decodes_utf8_lossily() {
    let parsed = DocumentParser::parse(b"hello \xffworld", DocumentType::Text, Reading::Unread).unwrap();
    assert_eq!(parsed.text, "hello \u{FFFD}world");
    assert!(parsed.page_count.is_none());
    assert!(parsed.page_boundaries.is_empty());
}

#[test]
fn parse_invalid_pdf_is_an_error() {
    match DocumentParser::parse(b"not a pdf", DocumentType::Pdf, Reading::Refused("no header".to_string())) {
        Err(e) => assert!(e.message().starts_with("Failed to load PDF: ")),
        Ok(_) => panic!("garbage parsed as a PDF"),
    }
}

#[test]
fn parse_invalid_docx_is_an_error() {
    match DocumentParser::parse(b"not a docx", DocumentType::Docx, Reading::Refused("no zip".to_string())) {
        Err(e) => assert!(e.message().starts_with("Failed to read DOCX: ")),
        Ok(_) => panic!("garbage parsed as a DOCX file"),
    }
}

#[test]
fn page_for_position_uses_page_ends() {
    let doc = ParsedDocument {
        text: "x".repeat(30),
        page_count: Some(3),
        metadata: DocumentMetadata::default(),
        page_boundaries: vec![10, 20, 30],
    };
    assert_eq!(doc.get_page_for_position(0), Some(1));
    assert_eq!(doc.get_page_for_position(9), Some(1));
    assert_eq!(doc.get_page_for_position(10), Some(2));
    assert_eq!(doc.get_page_for_position(29), Some(3));
    assert_eq!(doc.get_page_for_position(35), Some(3));
    let plain = ParsedDocument {
        text: String::new(),
        page_count: None,
        metadata: DocumentMetadata::default(),
        page_boundaries: vec![],
    };
    assert_eq!(plain.get_page_for_position(5), None);
}

#[test]
fn joined_pages_end_where_each_page_ends() {
    let pages = vec![Some("ab".to_string()), None, Some("cde".to_string())];
    let (text, ends) = lms_server::documents::join_page_texts(&pages);
    assert_eq!(text, "ab\n\ncde");
    assert_eq!(ends, vec![2, 2, 7]);
}

#[test]
fn pages_never_decrease_along_the_text() {
    let doc = ParsedDocument {
        text: String::new(),
        page_count: Some(4),
        metadata: DocumentMetadata::default(),
        page_boundaries: vec![5, 5, 12, 40],
    };
    let mut last = 0;
    for pos in 0..60 {
        let page = doc.get_page_for_position(pos).unwrap();
        assert!(page >= 1 && page <= 4);
        assert!(page >= last);
        last = page;
    }
}

#[test]
fn overlap_takes_trailing_sentences_within_budget() {
    let chunker = TextChunker::new(ChunkConfig { chunk_size: 100, overlap_size: 10, min_chunk_size: 1 });
    let sentences = vec!["aaaa".to_string(), "bbbbb".to_string(), "cc".to_string()];
    assert_eq!(chunker.get_overlap_sentences(&sentences), vec!["bbbbb".to_string(), "cc".to_string()]);
    assert_eq!(chunker.get_overlap_text(&sentences), "bbbbbcc");
    let tight = TextChunker::new(ChunkConfig { chunk_size: 100, overlap_size: 1, min_chunk_size: 1 });
    assert!(tight.get_overlap_sentences(&sentences).is_empty());
    assert_eq!(tight.get_overlap_text(&sentences), "");
}

#[test]
fn parse_text_has_no_pages_or_metadata() {
    let d = DocumentParser::parse_text("# Title\nbody".as_bytes()).unwrap();
    assert_eq!(d.text, "# Title\nbody");
    assert!(d.metadata.title.is_none() && d.metadata.author.is_none() && d.metadata.created_date.is_none());
}

#[test]
fn parse_markdown_has_no_metadata() {
    let parsed = DocumentParser::parse(b"Hello\nworld", DocumentType::Markdown, Reading::Unread).unwrap();
    assert_eq!(parsed.text, "Hello\nworld");
    assert!(parsed.metadata.title.is_none());
    assert!(parsed.metadata.author.is_none());
    assert!(parsed.metadata.created_date.is_none());
}

#[test]
fn type_from_a_lowercase_name() {
    assert_eq!(DocumentType::from_lowercase_name("report.pdf"), DocumentType::Pdf);
    assert_eq!(DocumentType::from_lowercase_name("notes.docx"), DocumentType::Docx);
    assert_eq!(DocumentType::from_lowercase_name("readme.markdown"), DocumentType::Markdown);
    assert_eq!(DocumentType::from_lowercase_name("README.MD"), DocumentType::Text);
}

#[test]
fn refusals_carry_the_reader_message() {
    match DocumentParser::parse(b"x", DocumentType::Pdf, Reading::Refused("bad xref".to_string())) {
        Err(e) => assert_eq!(e.message(), "Failed to load PDF: bad xref"),
        Ok(_) => panic!("a refusal must be an error"),
    }
    match DocumentParser::parse(b"x", DocumentType::Docx, Reading::Refused("bad zip".to_string())) {
        Err(e) => assert_eq!(e.message(), "Failed to read DOCX: bad zip"),
        Ok(_) => panic!("a refusal must be an error"),
    }
}

#[test]
fn pdf_is_built_from_pages_and_info_strings() {
    let c = PdfContent {
        pages: vec![Some("One".to_string()), None, Some("Three".to_string())],
        title: Some(b"Report".to_vec()),
        author: None,
        created_date: Some(b"D:2024\xff".to_vec()),
    };
    let d = DocumentParser::parse(b"%PDF", DocumentType::Pdf, Reading::Pdf(c)).unwrap();
    assert_eq!(d.text, "One\n\nThree");
    assert_eq!(d.page_count, Some(3));
    assert_eq!(d.page_boundaries, vec![3, 3, 10]);
    assert_eq!(d.metadata.title, Some("Report".to_string()));
    assert_eq!(d.metadata.author, None);
    assert_eq!(d.metadata.created_date, Some("D:2024\u{FFFD}".to_string()));
}

#[test]
fn docx_is_one_line_per_paragraph() {
    let ps = vec!["Hello world".to_string(), String::new(), "Bye".to_string()];
    let d = DocumentParser::parse(b"PK", DocumentType::Docx, Reading::Docx(ps)).unwrap();
    assert_eq!(d.text, "Hello world\n\nBye\n");
    assert!(d.page_count.is_none());
    assert!(d.page_boundaries.is_empty());
    assert!(d.metadata.title.is_none());
}

#[test]
fn chunks_hold_only_the_unicode_sentences() {
    // "[...] " holds no alphanumeric character, so it is no sentence.
    let chunker = TextChunker::new(ChunkConfig { chunk_size: 20, overlap_size: 0, min_chunk_size: 1 });
    let text = "Mr. Fox jumped. [...] The dog was too lazy.";
    let chunks = chunker.chunk_text(text).unwrap();
    let got: Vec<(&str, usize, usize, usize)> =
        chunks.iter().map(|c| (c.text.as_str(), c.start_pos, c.end_pos, c.index)).collect();
    assert_eq!(got, vec![("Mr. Fox jumped. ", 0, 16, 0), ("The dog was too lazy.", 22, 43, 1)]);
    for c in &chunks {
        assert!(!c.text.contains("[...]"));
    }
}

#[test]
fn a_chunk_spans_from_its_first_to_its_last_sentence() {
    let chunker = TextChunker::new(ChunkConfig { chunk_size: 100, overlap_size: 0, min_chunk_size: 1 });
    let text = "Mr. Fox jumped. [...] The dog was too lazy.";
    let chunks = chunker.chunk_text(text).unwrap();
    assert_eq!(chunks.len(), 1);
    assert_eq!(chunks[0].text, "Mr. Fox jumped. The dog was too lazy.");
    assert_eq!((chunks[0].start_pos, chunks[0].end_pos), (0, text.len()));
}
