use financials::forms::{
    form_pairs, id_fields, interpret_link_form, interpret_proposal_form, parse_import_form,
    parse_link_form, parse_usize, skip_ids_after_confirm, skip_ids_after_reject, skip_ids_except,
    urldecode, urlencoding,
};
use financials::error::AppError;

fn bad_request(e: AppError) -> String {
    match e {
        AppError::BadRequest(m) => m,
        _ => panic!("expected a bad request"),
    }
}

const A: &str = "00000000-0000-0000-0000-000000000001";
const B: &str = "00000000-0000-0000-0000-000000000002";
const C: &str = "00000000-0000-0000-0000-000000000003";

// ── urldecode ──

#[test]
fn urldecode_percent_encoding() {
    assert_eq!(urldecode("hello%20world"), "hello world");
}

#[test]
fn urldecode_plus() {
    assert_eq!(urldecode("hello+world"), "hello world");
}

#[test]
fn urldecode_ampersand() {
    assert_eq!(urldecode("a%26b"), "a&b");
}

#[test]
fn urldecode_plain_string() {
    assert_eq!(urldecode("hello"), "hello");
}

#[test]
fn urldecode_multi_byte() {
    // The urldecode function handles one byte at a time, so multi-byte
    // UTF-8 chars produce multiple decoded chars. %C3%A9 → two chars (Ã©)
    let result = urldecode("%C3%A9");
    assert!(result.contains("Ã"));
}

#[test]
fn urldecode_bad_escapes_are_dropped() {
    assert_eq!(urldecode("a%zzb"), "ab");
    assert_eq!(urldecode("a%2"), "a\u{2}");
    assert_eq!(urldecode("a%"), "a");
    assert_eq!(urldecode("%+5x"), "\u{5}x");
}

// ── urlencoding ──

#[test]
fn urlencoding_special_characters() {
    assert_eq!(urlencoding("Imported 3 rows (1 skipped)"), "Imported+3+rows+(1+skipped)");
    assert_eq!(urlencoding("50% & #1?"), "50%25+%26+%231%3F");
}

#[test]
fn urldecode_undoes_urlencoding() {
    for s in ["a b&c", "100% sure?", "#tag", "plain", "ünïcode & more"] {
        assert_eq!(urldecode(&urlencoding(s)), s);
    }
}

// ── form bodies ──

#[test]
fn form_pairs_split_at_first_equals() {
    let pairs = form_pairs("a=1&b=x=y&novalue&c=");
    assert_eq!(
        pairs,
        vec![
            ("a".to_string(), "1".to_string()),
            ("b".to_string(), "x=y".to_string()),
            ("c".to_string(), String::new()),
        ]
    );
    assert!(form_pairs("").is_empty());
}

#[test]
fn parse_usize_like_std() {
    assert_eq!(parse_usize("42"), Some(42));
    assert_eq!(parse_usize("+7"), Some(7));
    assert_eq!(parse_usize(""), None);
    assert_eq!(parse_usize("-1"), None);
    assert_eq!(parse_usize("1a"), None);
    assert_eq!(parse_usize("99999999999999999999999"), None);
}

#[test]
fn link_form_reads_ids() {
    let body = format!("outgoing_id={}&reconciled_ids={}&reconciled_ids={}&x=1", A, B, C);
    let (o, rs) = parse_link_form(&body).unwrap();
    assert_eq!(o, 1);
    assert_eq!(rs, vec![2, 3]);
}

#[test]
fn link_form_errors() {
    assert_eq!(bad_request(parse_link_form("outgoing_id=nope").unwrap_err()), "Invalid outgoing ID");
    let body = format!("outgoing_id={}&reconciled_ids=bad", A);
    assert_eq!(bad_request(parse_link_form(&body).unwrap_err()), "Invalid reconciled ID");
    let body = format!("reconciled_ids={}", B);
    assert_eq!(bad_request(parse_link_form(&body).unwrap_err()), "No outgoing selected");
    let body = format!("outgoing_id={}", A);
    assert_eq!(
        bad_request(parse_link_form(&body).unwrap_err()),
        "No reconciled transaction selected"
    );
}

#[test]
fn link_form_from_parsed_fields() {
    let fields = vec![
        ("outgoing_id".to_string(), Some(9u128)),
        ("reconciled_ids".to_string(), Some(4u128)),
    ];
    let (o, rs) = interpret_link_form(&fields).unwrap();
    assert_eq!((o, rs), (9, vec![4]));
}

#[test]
fn proposal_forms() {
    let body = format!("outgoing_id={}&reconciled_ids={}&skip_ids={}&skip_ids=bad", A, B, C);
    let form = interpret_proposal_form(&id_fields(&body));
    assert_eq!(form.outgoing_id, Some(1));
    assert_eq!(form.reconciled_ids, vec![2]);
    assert_eq!(form.skip_ids, vec![3]);
    assert_eq!(skip_ids_after_confirm(&form), vec![3, 1]);
    assert_eq!(skip_ids_after_reject(&id_fields(&body)), vec![3, 1]);
    let body = format!("skip_ids={}&skip_ids={}", A, B);
    assert_eq!(skip_ids_except(&id_fields(&body), Some(1)), vec![2]);
    assert_eq!(skip_ids_except(&id_fields(&body), None), vec![1, 2]);
}

#[test]
fn import_form_reads_mapping() {
    let (tmp, m) = parse_import_form(
        "tmp_id=abc&date_col=0&amount_col=2&vendor_col=1&date_format=%25d%2F%25m%2F%25Y",
    )
    .unwrap();
    assert_eq!(tmp, "abc");
    assert_eq!((m.date_col, m.amount_col, m.vendor_col), (0, 2, Some(1)));
    assert_eq!(m.date_format, "%d/%m/%Y");
    let (_, m) = parse_import_form("date_col=0&amount_col=1&vendor_col=&date_format=").unwrap();
    assert_eq!(m.vendor_col, None);
    assert_eq!(m.date_format, "%Y-%m-%d");
    assert_eq!(bad_request(parse_import_form("amount_col=1").unwrap_err()), "Missing date_col");
    assert_eq!(bad_request(parse_import_form("date_col=x").unwrap_err()), "Missing date_col");
    assert_eq!(bad_request(parse_import_form("date_col=1").unwrap_err()), "Missing amount_col");
}
