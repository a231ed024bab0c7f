use overlord::error::{OverlordError, OverlordResult};

#[test]
fn error_keeps_its_message() {
    let error = OverlordError::new("No subcommand provided.".to_string());
    assert_eq!(error.message, "No subcommand provided.");
    assert_eq!(error.human_error(), "No subcommand provided.");
}

#[test]
fn error_with_empty_message() {
    assert_eq!(OverlordError::new(String::new()).human_error(), "");
}

#[test]
fn result_alias_carries_the_error() {
    let failed: OverlordResult<u8> = Err(OverlordError::new("Unknown subcommand".to_string()));
    assert_eq!(failed.unwrap_err().human_error(), "Unknown subcommand");
    let fine: OverlordResult<u8> = Ok(3);
    assert_eq!(fine.unwrap(), 3);
}
