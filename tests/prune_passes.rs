use html_prune::document::{clean_body, clean_document, clean_head, PruneError};
use html_prune::prune::{
    remove_empty_lines, remove_form, remove_meta, remove_script, remove_style, remove_trees,
    PRINT_NOTICE,
};

#[test]
fn head_script_removed_rest_unchanged() {
    let doc = b"<html><head><script>var x=1;</script><title>T</title></head><body><p>Hi</p></body></html>";
    let out = clean_head(doc).unwrap();
    assert_eq!(
        out,
        b"<html><head><title>T</title></head><body><p>Hi</p></body></html>".to_vec()
    );
}

#[test]
fn head_missing_is_reported() {
    let doc = b"<html><body><p>Hi</p></body></html>";
    assert_eq!(clean_head(doc), Err(PruneError::MissingHead));
}

#[test]
fn head_close_before_open_is_reported() {
    let doc = b"</head><head>";
    assert_eq!(clean_head(doc), Err(PruneError::MissingHead));
}

#[test]
fn head_meta_style_form_removed() {
    let doc = b"<!DOCTYPE html>\n<head><meta charset=\"utf-8\"><style>p{}</style><meta name=\"a\" content=\"b\">\n<title>x</title><form action=\"/q\"><input></form></head>\n<body>b</body>";
    let out = clean_head(doc).unwrap();
    assert_eq!(
        out,
        b"<!DOCTYPE html>\n<head>\n<title>x</title></head>\n<body>b</body>".to_vec()
    );
}

#[test]
fn head_spans_to_last_close() {
    let doc = b"a<head>x</head>y</head>z";
    assert_eq!(clean_head(doc).unwrap(), doc.to_vec());
}

#[test]
fn body_pruned_and_spliced() {
    let mut doc = Vec::new();
    doc.extend_from_slice(b"<head>\n</head>\n<body>\r\n<script src=\"a.js\"></script>\n<p>x</p>");
    doc.extend_from_slice(PRINT_NOTICE.as_bytes());
    doc.extend_from_slice(b"\n<form><input></form><style>.s{}</style>\n</body>\n<!-- end -->\n");
    let out = clean_body(&doc).unwrap();
    assert_eq!(out, b"<head>\n</head>\n<body><p>x</p></body>\n<!-- end -->\n".to_vec());
}

#[test]
fn body_missing_open_is_reported() {
    assert_eq!(clean_body(b"<html></body></html>"), Err(PruneError::MissingBodyOpen));
}

#[test]
fn body_missing_close_is_reported() {
    assert_eq!(clean_body(b"<html><body></html>"), Err(PruneError::MissingBodyClose));
    assert_eq!(clean_body(b""), Err(PruneError::MissingBodyOpen));
}

#[test]
fn body_close_before_open_is_reported() {
    assert_eq!(
        clean_body(b"</body>x<body>"),
        Err(PruneError::BodyCloseBeforeOpen)
    );
}

#[test]
fn body_close_right_before_open_gives_empty_region() {
    assert_eq!(clean_body(b"</body><body>").unwrap(), b"</body><body>".to_vec());
}

#[test]
fn script_absent_leaves_input() {
    assert_eq!(remove_script(b"<p>no scripts</p>"), b"<p>no scripts</p>".to_vec());
    assert_eq!(remove_script(b"<script</script>"), b"<script</script>".to_vec());
    assert_eq!(remove_script(b""), Vec::<u8>::new());
}

#[test]
fn script_removal_is_greedy_first_to_last() {
    let doc = b"a<script>1</script>b<script type=\"x\">2</script>c";
    assert_eq!(remove_script(doc), b"ac".to_vec());
}

#[test]
fn script_removal_spans_lines() {
    let doc = b"a<script\n src=\"s\">\nx\n</script>\nb";
    assert_eq!(remove_script(doc), b"a\nb".to_vec());
}

#[test]
fn style_and_form_removed() {
    assert_eq!(remove_style(b"x<style>p{}</style>y"), b"xy".to_vec());
    assert_eq!(
        remove_form(b"x<form method=\"post\"><input></form>y"),
        b"xy".to_vec()
    );
    assert_eq!(remove_form(b"x<form>y"), b"x<form>y".to_vec());
}

#[test]
fn meta_tags_all_removed() {
    let doc = b"<meta a=\"1\">x<meta\nb>y<meta";
    assert_eq!(remove_meta(doc), b"xy<meta".to_vec());
}

#[test]
fn notice_removed_once_rest_identical() {
    let mut doc = b"<div>before</div>".to_vec();
    doc.extend_from_slice(PRINT_NOTICE.as_bytes());
    doc.extend_from_slice(b"<p>after</p>");
    assert_eq!(remove_trees(&doc), b"<div>before</div><p>after</p>".to_vec());
}

#[test]
fn notice_removed_every_time() {
    let mut doc = PRINT_NOTICE.as_bytes().to_vec();
    doc.extend_from_slice(b"-");
    doc.extend_from_slice(PRINT_NOTICE.as_bytes());
    assert_eq!(remove_trees(&doc), b"-".to_vec());
    assert_eq!(remove_trees(b"<p id=\"gs_dont_print\">"), b"<p id=\"gs_dont_print\">".to_vec());
}

#[test]
fn line_breaks_removed() {
    assert_eq!(remove_empty_lines(b"a\r\nb\n\nc\r"), b"abc".to_vec());
    assert_eq!(remove_empty_lines(b""), Vec::<u8>::new());
}

#[test]
fn line_breaks_removal_idempotent() {
    let inputs: [&[u8]; 4] = [b"a\r\nb", b"\n\n\n", b"plain", b"\r\xff\n\x00"];
    for x in inputs {
        let once = remove_empty_lines(x);
        assert_eq!(remove_empty_lines(&once), once);
    }
}

#[test]
fn document_head_then_body() {
    let doc = b"<html><head><script>s</script><title>T</title></head>\n<body>\n<p>Hi</p><style>x</style>\n</body></html>";
    assert_eq!(
        clean_document(doc).unwrap(),
        b"<html><head><title>T</title></head>\n<body><p>Hi</p></body></html>".to_vec()
    );
    assert_eq!(clean_document(b"<body></body>"), Err(PruneError::MissingHead));
    assert_eq!(clean_document(b"<head></head>"), Err(PruneError::MissingBodyOpen));
}
