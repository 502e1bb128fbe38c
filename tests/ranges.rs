use pdf_tools::object::PdfError;
use pdf_tools::ranges::parse_page_ranges;

#[test]
fn ranges_and_single_pages() {
    assert_eq!(parse_page_ranges("1-3,5,7-9", 10), Ok(vec![0, 1, 2, 4, 6, 7, 8]));
    assert_eq!(parse_page_ranges("1-4", 4), Ok(vec![0, 1, 2, 3]));
}

#[test]
fn order_and_repetition_do_not_matter() {
    assert_eq!(parse_page_ranges("3,1", 5), Ok(vec![0, 2]));
    assert_eq!(parse_page_ranges("2,2,2", 5), Ok(vec![1]));
    assert_eq!(parse_page_ranges("4-5,1-4", 5), Ok(vec![0, 1, 2, 3, 4]));
}

#[test]
fn out_of_bounds_pages() {
    assert_eq!(parse_page_ranges("0-2", 5), Err(PdfError::RangeOutOfBounds));
    assert_eq!(parse_page_ranges("6", 5), Err(PdfError::RangeOutOfBounds));
    assert_eq!(parse_page_ranges("0", 5), Err(PdfError::RangeOutOfBounds));
    assert_eq!(parse_page_ranges("3-2", 5), Err(PdfError::RangeOutOfBounds));
    assert_eq!(parse_page_ranges("1", 0), Err(PdfError::RangeOutOfBounds));
}

#[test]
fn malformed_tokens() {
    assert_eq!(parse_page_ranges("a-b", 5), Err(PdfError::InvalidSyntax));
    assert_eq!(parse_page_ranges("1-2-3", 5), Err(PdfError::InvalidSyntax));
    assert_eq!(parse_page_ranges("", 5), Err(PdfError::InvalidSyntax));
    assert_eq!(parse_page_ranges("1,,2", 5), Err(PdfError::InvalidSyntax));
    assert_eq!(parse_page_ranges("-3", 5), Err(PdfError::InvalidSyntax));
    assert_eq!(parse_page_ranges("99999999999999999999999", 5), Err(PdfError::InvalidSyntax));
}

#[test]
fn first_failing_token_decides() {
    assert_eq!(parse_page_ranges("9,x", 5), Err(PdfError::RangeOutOfBounds));
    assert_eq!(parse_page_ranges("x,9", 5), Err(PdfError::InvalidSyntax));
}

#[test]
fn whitespace_is_ignored() {
    assert_eq!(parse_page_ranges(" 2 - 3 , 1 ", 5), Ok(vec![0, 1, 2]));
    assert_eq!(parse_page_ranges("\t5\n", 5), Ok(vec![4]));
}

#[test]
fn unicode_whitespace_is_ignored() {
    assert_eq!(parse_page_ranges("\u{a0}3", 5), Ok(vec![2]));
    assert_eq!(parse_page_ranges("1\u{3000}-\u{2003}2 ,\u{85}4\u{2029}", 5), Ok(vec![0, 1, 3]));
    assert_eq!(parse_page_ranges("\u{1680}5\u{205f}", 5), Ok(vec![4]));
}

#[test]
fn leading_plus_sign() {
    assert_eq!(parse_page_ranges("+2", 5), Ok(vec![1]));
    assert_eq!(parse_page_ranges("+1-+3", 5), Ok(vec![0, 1, 2]));
    assert_eq!(parse_page_ranges("+", 5), Err(PdfError::InvalidSyntax));
    assert_eq!(parse_page_ranges("++2", 5), Err(PdfError::InvalidSyntax));
    assert_eq!(parse_page_ranges("+0", 5), Err(PdfError::RangeOutOfBounds));
}
