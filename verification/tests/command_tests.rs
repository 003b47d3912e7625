use one_luck::command::{parse_command, Command};

#[test]
fn commands_are_read_case_blind() {
    assert_eq!(parse_command("draw"), Command::Draw);
    assert_eq!(parse_command("  DRAW \n"), Command::Draw);
    assert_eq!(parse_command("Inventory"), Command::Inventory);
    assert_eq!(parse_command("pool extra words"), Command::Pool);
    assert_eq!(parse_command("help"), Command::Help);
    assert_eq!(parse_command("exit"), Command::Exit);
    assert_eq!(parse_command("QUIT"), Command::Exit);
    assert_eq!(parse_command("   "), Command::Empty);
    assert_eq!(parse_command(""), Command::Empty);
    assert_eq!(parse_command("dance"), Command::Unknown);
    assert_eq!(parse_command("drawx"), Command::Unknown);
}

#[test]
fn buy_dlc_takes_the_trimmed_rest_as_code() {
    assert_eq!(parse_command("buy-dlc  ABC-123  "), Command::BuyDlc("ABC-123".to_string()));
    assert_eq!(parse_command("BUY-DLC\tmy code\n"), Command::BuyDlc("my code".to_string()));
    assert_eq!(parse_command("buy-dlc"), Command::BuyDlc(String::new()));
    assert_eq!(parse_command("buy-dlc   "), Command::BuyDlc(String::new()));
}
