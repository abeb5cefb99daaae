use vd_pipeline::interactive::{menu_command, run, MenuCommand, MenuInput, MenuItem, MenuOutcome};

fn items() -> Vec<MenuItem<String>> {
    vec![
        MenuItem::new("alice".to_string(), "alice (participant)".to_string()),
        MenuItem::new("mix".to_string(), "mix (room)".to_string()),
    ]
}

fn same(v: &String) -> String {
    v.clone()
}

fn no_edit(v: &String, input: MenuInput, output: String) -> (String, MenuInput, String) {
    (v.clone(), input, output)
}

#[test]
fn blank_line_accepts() {
    let mut it = items();
    let mut input = MenuInput::from_text("\n");
    let mut output = String::new();
    let outcome = run(&mut it, same, no_edit, &mut input, &mut output);
    assert_eq!(outcome, MenuOutcome::Accepted);
    assert_eq!(it.len(), 2);
}

#[test]
fn yes_accepts() {
    let mut it = items();
    let mut input = MenuInput::from_text("yes\n");
    let mut output = String::new();
    let outcome = run(&mut it, same, no_edit, &mut input, &mut output);
    assert_eq!(outcome, MenuOutcome::Accepted);
}

#[test]
fn quit_aborts() {
    let mut it = items();
    let mut input = MenuInput::from_text("q\n");
    let mut output = String::new();
    let outcome = run(&mut it, same, no_edit, &mut input, &mut output);
    assert_eq!(outcome, MenuOutcome::Aborted);
}

#[test]
fn eof_aborts_instead_of_hanging() {
    let mut it = items();
    let mut input = MenuInput::from_text("");
    let mut output = String::new();
    let outcome = run(&mut it, same, no_edit, &mut input, &mut output);
    assert_eq!(outcome, MenuOutcome::Aborted);
}

#[test]
fn drop_removes_item_then_accepts() {
    let mut it = items();
    let mut input = MenuInput::from_text("d 1\ny\n");
    let mut output = String::new();
    let outcome = run(&mut it, same, no_edit, &mut input, &mut output);
    assert_eq!(outcome, MenuOutcome::Accepted);
    assert_eq!(it.len(), 1);
    assert_eq!(it[0].value, "mix");
}

#[test]
fn drop_long_form_works_too() {
    let mut it = items();
    let mut input = MenuInput::from_text("drop 2\ny\n");
    let mut output = String::new();
    run(&mut it, same, no_edit, &mut input, &mut output);
    assert_eq!(it.len(), 1);
    assert_eq!(it[0].value, "alice");
}

#[test]
fn edit_replaces_value_and_refreshes_label() {
    let mut it = items();
    let mut input = MenuInput::from_text("1\ny\n");
    let mut output = String::new();
    let edit = |_v: &String, input: MenuInput, output: String| ("Alice".to_string(), input, output);
    run(&mut it, |v: &String| format!("edited:{v}"), edit, &mut input, &mut output);
    assert_eq!(it[0].value, "Alice");
    assert_eq!(it[0].label, "edited:Alice");
}

#[test]
fn out_of_range_number_reprompts_without_changes() {
    let mut it = items();
    let mut input = MenuInput::from_text("9\ny\n");
    let mut output = String::new();
    let outcome = run(&mut it, same, no_edit, &mut input, &mut output);
    assert_eq!(outcome, MenuOutcome::Accepted);
    assert_eq!(it.len(), 2);
    assert!(output.contains("unrecognized"));
}

#[test]
fn garbage_input_reprompts_without_changes() {
    let mut it = items();
    let mut input = MenuInput::from_text("whatever\ny\n");
    let mut output = String::new();
    let outcome = run(&mut it, same, no_edit, &mut input, &mut output);
    assert_eq!(outcome, MenuOutcome::Accepted);
    assert_eq!(it.len(), 2);
}

#[test]
fn menu_commands_by_line() {
    assert_eq!(menu_command("\n", 2), MenuCommand::Accept);
    assert_eq!(menu_command("Y\n", 2), MenuCommand::Accept);
    assert_eq!(menu_command("quit\n", 2), MenuCommand::Abort);
    assert_eq!(menu_command("2\n", 2), MenuCommand::Edit(1));
    assert_eq!(menu_command("d 2", 2), MenuCommand::Drop(1));
    assert_eq!(menu_command("d 3", 2), MenuCommand::BadDrop("3".to_string()));
    assert_eq!(menu_command("0", 2), MenuCommand::Unrecognized("0".to_string()));
}

#[test]
fn dropping_every_item_then_accepting_leaves_none() {
    let mut it = items();
    let mut input = MenuInput::from_text("d 1\nd 1\n\n");
    let mut output = String::new();
    let outcome = run(&mut it, same, no_edit, &mut input, &mut output);
    assert_eq!(outcome, MenuOutcome::Accepted);
    assert!(it.is_empty());
}

#[test]
fn menu_writes_listing_prompt_and_hints() {
    let mut it = items();
    let mut input = MenuInput::from_text("say \"hi\"\nd 7\nq\n");
    let mut output = String::from(">>");
    let outcome = run(&mut it, same, no_edit, &mut input, &mut output);
    assert_eq!(outcome, MenuOutcome::Aborted);
    let round = "1. alice (participant)\n2. mix (room)\n[Enter/y]=accept  N=edit  d N=drop  q=abort > ";
    let expected = format!(
        ">>{round}unrecognized: \"say \\\"hi\\\"\" — Enter to accept, a number to edit, \"d N\" to drop, q to abort\n{round}not a valid item number: 7\n{round}"
    );
    assert_eq!(output, expected);
}

#[test]
fn edit_can_prompt_and_read_the_new_value() {
    let mut it = items();
    let mut input = MenuInput::from_text("1\nBob\ny\n");
    let mut output = String::new();
    let edit = |_v: &String, mut input: MenuInput, mut output: String| {
        output.push_str("new name > ");
        let value = input.read_line().map(|l| l.trim().to_string()).unwrap_or_default();
        (value, input, output)
    };
    let outcome = run(&mut it, same, edit, &mut input, &mut output);
    assert_eq!(outcome, MenuOutcome::Accepted);
    assert_eq!(it[0].value, "Bob");
    assert_eq!(it[0].label, "Bob");
    assert!(output.contains("new name > "));
}
