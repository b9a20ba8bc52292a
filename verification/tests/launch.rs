use bivrost::launch::{
    launch_arguments, substitute_descriptor, ExitOutcome, EXIT_FAILURE, EXIT_SUCCESS,
};

#[test]
fn template_with_placeholder_becomes_argument_list() {
    assert_eq!(
        launch_arguments("DOOR.EXE /D -N {fd}", 1288),
        vec!["DOOR.EXE", "/D", "-N", "1288"]
    );
}

#[test]
fn template_without_placeholder_is_only_split() {
    assert_eq!(launch_arguments("DOOR.EXE /D -N 1", 1288), vec!["DOOR.EXE", "/D", "-N", "1"]);
}

#[test]
fn placeholder_is_replaced_in_the_program_too() {
    assert_eq!(launch_arguments("door{fd} {fd}", 3), vec!["door3", "3"]);
}

#[test]
fn two_spaces_give_an_empty_argument() {
    assert_eq!(launch_arguments("a  b", 1), vec!["a", "", "b"]);
}

#[test]
fn empty_template_has_one_empty_token() {
    assert_eq!(launch_arguments("", 1), vec![""]);
}

#[test]
fn quotes_do_not_group_words() {
    assert_eq!(launch_arguments("run \"a b\"", 1), vec!["run", "\"a", "b\""]);
}

#[test]
fn placeholder_is_replaced_inside_a_token_and_more_than_once() {
    assert_eq!(substitute_descriptor("-H{fd}:{fd}", 7), "-H7:7");
    assert_eq!(substitute_descriptor("{fd", 7), "{fd");
    assert_eq!(substitute_descriptor("{{fd}}", 0), "{0}");
    assert_eq!(substitute_descriptor("{fd}", u64::MAX), "18446744073709551615");
}

#[test]
fn descriptor_value_does_not_change_the_number_of_tokens() {
    for template in ["", "a", "a {fd}", "{fd} {fd} {fd}", " x  {fd} "] {
        let expected = template.split(' ').count();
        assert_eq!(launch_arguments(template, 0).len(), expected);
        assert_eq!(launch_arguments(template, u64::MAX).len(), expected);
    }
}

#[test]
fn no_argument_holds_a_space() {
    for token in launch_arguments(" a {fd}  b{fd}c ", 42) {
        assert!(!token.contains(' '));
    }
}

#[test]
fn child_code_is_relayed_and_signal_is_failure() {
    assert_eq!(ExitOutcome::ExitedWithCode(7).exit_code(), 7);
    assert_eq!(ExitOutcome::ExitedWithCode(0).exit_code(), EXIT_SUCCESS);
    assert_eq!(ExitOutcome::ExitedWithCode(-3).exit_code(), -3);
    assert_eq!(ExitOutcome::TerminatedBySignal.exit_code(), EXIT_FAILURE);
    assert_eq!(EXIT_FAILURE, -1);
}
