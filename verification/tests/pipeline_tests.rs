use stripe_csv::process;
use stripe_csv::Error;

const HEADER: &str = "account_id,email,transaction_count,total_fees_eur\n";

fn run(input: &str) -> Result<String, Error> {
    match process(input.as_bytes()) {
        Ok(out) => Ok(String::from_utf8(out).expect("output should be UTF-8")),
        Err(e) => Err(e),
    }
}

#[test]
fn test_single_entry() {
    let out = run("Amount,User ID,User Email\n\"0,25\",acct_123,user@example.com").unwrap();
    assert_eq!(out, format!("{}acct_123,user@example.com,1,0.25\n", HEADER));
}

#[test]
fn test_zero_amount_entry() {
    let out = run("Amount,User ID,User Email\n\"0,00\",acct_000,zero@example.com").unwrap();
    assert_eq!(out, format!("{}acct_000,zero@example.com,1,0.00\n", HEADER));
}

#[test]
fn test_two_account_aggregation() {
    let out = run(
        "Amount,User ID,User Email\n\"0,25\",acct_123,user@example.com\n\"1,50\",acct_456,test@example.com",
    )
    .unwrap();
    assert_eq!(
        out,
        format!(
            "{}acct_123,user@example.com,1,0.25\nacct_456,test@example.com,1,1.50\n",
            HEADER
        )
    );
}

#[test]
fn test_same_account_accumulation() {
    let out = run("Amount,User ID,User Email\n\"0,25\",acct_X,a@x\n\"1,50\",acct_X,b@x").unwrap();
    assert_eq!(out, format!("{}acct_X,a@x,2,1.75\n", HEADER));
}

#[test]
fn test_decimal_separator_equivalence() {
    let comma = run("Amount,User ID,User Email\n\"1,50\",acct_X,u@x").unwrap();
    let period = run("Amount,User ID,User Email\n\"1.50\",acct_X,u@x").unwrap();
    assert_eq!(comma, period);
    assert_eq!(comma, format!("{}acct_X,u@x,1,1.50\n", HEADER));
}

#[test]
fn test_extra_columns_ignored() {
    let out = run(
        "id,Created (UTC),Amount,Amount Refunded,Currency,User ID,User Email,Application ID,Transaction ID\nfee_1ABC123XYZ456789DEF,2025-12-31 14:30,\"0,25\",\"0,00\",eur,acct_1TEST001ABC123XYZ,user1@example.com,ca_ABC123XYZ456789DEF,ch_3ABC123XYZ456789DEF",
    )
    .unwrap();
    assert_eq!(
        out,
        format!("{}acct_1TEST001ABC123XYZ,user1@example.com,1,0.25\n", HEADER)
    );
}

#[test]
fn test_header_only() {
    let out = run("Amount,User ID,User Email").unwrap();
    assert_eq!(out, HEADER);
}

#[test]
fn test_header_only_with_newline() {
    let out = run("Amount,User ID,User Email\n").unwrap();
    assert_eq!(out, HEADER);
}

#[test]
fn test_empty_input() {
    let out = run("").unwrap();
    assert_eq!(out, HEADER);
}

#[test]
fn test_missing_email_column() {
    let r = run("Amount,User ID\n0,25,acct_123");
    match r {
        Err(Error::MissingColumn(name)) => assert_eq!(name, b"User Email".to_vec()),
        _ => panic!("should be a missing-column error"),
    }
}

#[test]
fn test_missing_amount_column() {
    let r = run("User ID,User Email\nacct_123,u@x");
    match r {
        Err(Error::MissingColumn(name)) => assert_eq!(name, b"Amount".to_vec()),
        _ => panic!("should be a missing-column error"),
    }
}

#[test]
fn test_missing_column_without_data_rows_passes() {
    // The column check happens at the first data row, as the decoder is lazy.
    let out = run("Amount,User ID").unwrap();
    assert_eq!(out, HEADER);
}

#[test]
fn test_invalid_amount() {
    let r = run("Amount,User ID,User Email\ninvalid,acct_123,user@example.com");
    match r {
        Err(Error::MalformedAmount(cell)) => assert_eq!(cell, b"invalid".to_vec()),
        _ => panic!("should be a malformed-amount error"),
    }
}

#[test]
fn test_ragged_row_rejected() {
    let r = run("Amount,User ID,User Email\n\"0,25\",acct_123");
    assert!(matches!(r, Err(Error::DecodeError(_))));
}

#[test]
fn test_fail_fast_on_first_bad_row() {
    let r = run("Amount,User ID,User Email\nbad_one,acct_1,a@x\nbad_two,acct_2,b@x");
    match r {
        Err(Error::MalformedAmount(cell)) => assert_eq!(cell, b"bad_one".to_vec()),
        _ => panic!("should surface the first bad row"),
    }
}

#[test]
fn test_running_twice_is_identical() {
    let input = "Amount,User ID,User Email\n\"0,25\",acct_123,user@example.com\n\"1,50\",acct_456,test@example.com";
    let once = process(input.as_bytes()).unwrap();
    let again = process(input.as_bytes()).unwrap();
    assert_eq!(once, again);
}

#[test]
fn test_crlf_line_endings() {
    let out =
        run("Amount,User ID,User Email\r\n\"0,25\",acct_123,user@example.com\r\n").unwrap();
    assert_eq!(out, format!("{}acct_123,user@example.com,1,0.25\n", HEADER));
}

#[test]
fn test_quoted_field_with_escaped_quote() {
    let out = run("Amount,User ID,User Email\n\"1,50\",\"ac\"\"ct\",u@x").unwrap();
    assert_eq!(out, format!("{}ac\"ct,u@x,1,1.50\n", HEADER));
}

#[test]
fn test_negative_amounts_accumulate() {
    let out = run("Amount,User ID,User Email\n\"1,50\",acct_X,u@x\n\"-2,00\",acct_X,u@x").unwrap();
    assert_eq!(out, format!("{}acct_X,u@x,2,-0.50\n", HEADER));
}

#[test]
fn test_email_frozen_at_first_sighting() {
    let out = run(
        "Amount,User ID,User Email\n\"1,00\",acct_X,first@x\n\"1,00\",acct_X,second@x\n\"1,00\",acct_X,third@x",
    )
    .unwrap();
    assert_eq!(out, format!("{}acct_X,first@x,3,3.00\n", HEADER));
}

#[test]
fn test_output_order_is_first_sighting_order() {
    let out = run(
        "Amount,User ID,User Email\n\"1,00\",b_acct,b@x\n\"1,00\",a_acct,a@x\n\"1,00\",b_acct,b2@x",
    )
    .unwrap();
    assert_eq!(out, format!("{}b_acct,b@x,2,2.00\na_acct,a@x,1,1.00\n", HEADER));
}

#[test]
fn test_duplicate_header_first_occurrence_wins() {
    let out = run("Amount,Amount,User ID,User Email\n\"2,00\",\"9,99\",acct_X,u@x").unwrap();
    assert_eq!(out, format!("{}acct_X,u@x,1,2.00\n", HEADER));
}

#[test]
fn test_blank_lines_skipped() {
    let out = run("Amount,User ID,User Email\n\n\"0,25\",acct_123,u@x\n\n").unwrap();
    assert_eq!(out, format!("{}acct_123,u@x,1,0.25\n", HEADER));
}
