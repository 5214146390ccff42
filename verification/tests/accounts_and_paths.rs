use stripe_csv::fees::AccountFees;
use stripe_csv::outpath::derive_output;
use stripe_csv::outpath::resolve_output;
use stripe_csv::render::render_summary;
use stripe_csv::Error;

#[test]
fn test_new_starts_empty() {
    let acc = AccountFees::new(b"acct_1", b"a@x");
    assert_eq!(acc.account_id, b"acct_1".to_vec());
    assert_eq!(acc.email, b"a@x".to_vec());
    assert_eq!(acc.transaction_count, 0);
    assert_eq!(acc.total_fees, 0);
}

#[test]
fn test_add_fee_accumulates() {
    let mut acc = AccountFees::new(b"acct_1", b"a@x");
    acc.add_fee(25);
    acc.add_fee(150);
    acc.add_fee(-50);
    assert_eq!(acc.transaction_count, 3);
    assert_eq!(acc.total_fees, 125);
}

#[test]
fn test_csv_header() {
    assert_eq!(
        AccountFees::csv_header(),
        "account_id,email,transaction_count,total_fees_eur"
    );
}

#[test]
fn test_render_single_account() {
    let mut acc = AccountFees::new(b"acct_1", b"a@x");
    acc.add_fee(25);
    let out = render_summary(&vec![acc]);
    assert_eq!(
        String::from_utf8(out).unwrap(),
        "account_id,email,transaction_count,total_fees_eur\nacct_1,a@x,1,0.25\n"
    );
}

#[test]
fn test_render_negative_total() {
    let mut acc = AccountFees::new(b"acct_1", b"a@x");
    acc.add_fee(-1234);
    let out = render_summary(&vec![acc]);
    assert_eq!(
        String::from_utf8(out).unwrap(),
        "account_id,email,transaction_count,total_fees_eur\nacct_1,a@x,1,-12.34\n"
    );
}

#[test]
fn test_render_large_total() {
    let mut acc = AccountFees::new(b"acct_1", b"a@x");
    acc.add_fee(1234567);
    let out = render_summary(&vec![acc]);
    assert_eq!(
        String::from_utf8(out).unwrap(),
        "account_id,email,transaction_count,total_fees_eur\nacct_1,a@x,1,12345.67\n"
    );
}

#[test]
fn test_derive_output_from_csv_name() {
    assert_eq!(derive_output(b"fees.csv"), b"fees_out.csv".to_vec());
}

#[test]
fn test_derive_output_keeps_directory() {
    assert_eq!(
        derive_output(b"/data/exports/fees.csv"),
        b"/data/exports/fees_out.csv".to_vec()
    );
}

#[test]
fn test_derive_output_without_extension() {
    assert_eq!(derive_output(b"/data/fees"), b"/data/fees_out.csv".to_vec());
}

#[test]
fn test_derive_output_hidden_file() {
    assert_eq!(derive_output(b"/data/.fees"), b"/data/.fees_out.csv".to_vec());
}

#[test]
fn test_derive_output_without_file_name() {
    assert_eq!(derive_output(b"/data/"), b"/data/output_out.csv".to_vec());
}

#[test]
fn test_explicit_default_path_equals_omitting_it() {
    let input = b"/data/exports/fees.csv";
    let derived = derive_output(input);
    let explicit = resolve_output(input, Some(derived.clone()));
    let omitted = resolve_output(input, None);
    assert_eq!(explicit, omitted);
    assert_eq!(explicit, derived);
}

#[test]
fn test_file_not_found_message_contains_path() {
    let err = Error::FileNotFound(b"/tmp/non_existent_file_12345.csv".to_vec());
    let msg = String::from_utf8(err.message()).unwrap();
    assert!(msg.contains("/tmp/non_existent_file_12345.csv"));
    assert!(msg.contains("does not exist"));
}

#[test]
fn test_missing_column_message_names_the_column() {
    let err = Error::MissingColumn(b"User Email".to_vec());
    let msg = String::from_utf8(err.message()).unwrap();
    assert!(msg.contains("User Email"));
}
