use secure_chat_lib::commands::{Commands, ParseCommandError};

#[test]
fn parse_every_name() {
    for c in Commands::all() {
        assert_eq!(Commands::parse(&c.as_str().to_string()), Ok(c));
    }
}

#[test]
fn parse_is_exact() {
    assert_eq!(Commands::parse(&"connect".to_string()), Err(ParseCommandError::VariantNotFound));
    assert_eq!(Commands::parse(&"Exit ".to_string()), Err(ParseCommandError::VariantNotFound));
    assert_eq!(Commands::parse(&"".to_string()), Err(ParseCommandError::VariantNotFound));
    assert_eq!(Commands::parse(&"Test".to_string()), Ok(Commands::Test));
}

#[test]
fn test_command_has_no_descriptions() {
    assert_eq!(Commands::Test.get_message(), None);
    assert_eq!(Commands::Test.get_detailed_message(), None);
    assert_eq!(Commands::Exit.get_message(), Some("Exit"));
}

#[test]
fn help_dialog_text() {
    let expected = "Possible commands:\n\
      \x20     Connect - This creates a new chat\n\
      \x20     Update - This retrieves any new messages and connections\n\
      \x20     List - This displays all current connections\n\
      \x20     Message - This sends a message\n\
      \x20     Test - No Help Message :(\n\
      \x20     Exit - This exits the program\n";
    assert_eq!(Commands::get_help_dialog(), expected);
}
