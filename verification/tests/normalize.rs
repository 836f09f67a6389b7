use arxiv_agent::normalize::convert_pdf_url;

#[test]
fn abs_url_becomes_secure_pdf() {
    assert_eq!(
        convert_pdf_url("http://arxiv.org/abs/1234.5678"),
        "https://arxiv.org/pdf/1234.5678.pdf"
    );
}

#[test]
fn pdf_url_becomes_secure() {
    assert_eq!(
        convert_pdf_url("http://arxiv.org/pdf/1234.5678"),
        "https://arxiv.org/pdf/1234.5678"
    );
}

#[test]
fn other_url_only_scheme_rewritten() {
    assert_eq!(convert_pdf_url("http://example.com/x"), "https://example.com/x");
}

#[test]
fn url_without_insecure_scheme_unchanged_path() {
    assert_eq!(convert_pdf_url("ftp://example.com/x"), "ftp://example.com/x");
}

#[test]
fn already_secure_abs_still_rewritten() {
    assert_eq!(
        convert_pdf_url("https://arxiv.org/abs/2401.00001"),
        "https://arxiv.org/pdf/2401.00001.pdf"
    );
}

#[test]
fn idempotent_on_samples() {
    let samples = vec![
        "http://arxiv.org/abs/1234.5678",
        "http://arxiv.org/pdf/1234.5678",
        "http://example.com/a",
        "",
        "arxiv.org/abs/x",
        "http://arxiv.org/abs/http://arxiv.org/abs/1",
    ];
    for s in samples {
        let once = convert_pdf_url(s);
        let twice = convert_pdf_url(&once);
        assert_eq!(once, twice);
    }
}
