use desktop_utils::command::SubCommand;

fn sample() -> SubCommand {
    SubCommand::Sub(vec!["echo".to_string(), "hi".to_string()])
}

#[test]
fn accessors_give_the_command_line() {
    let expected = vec!["echo".to_string(), "hi".to_string()];
    let mut c = sample();
    assert_eq!(c.as_ref(), &expected);
    assert_eq!(c.as_mut(), &expected);
    assert_eq!(c.get(), expected);
}
