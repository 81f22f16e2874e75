//! What is asked before anything is touched, and what counts as an answer.

use vid_fp::confirm::{approve, intent, interpret, question, Reply, Target, MAX_ATTEMPTS, PREVIEW_LIMIT};
use vid_fp::disposal::Disposal;

fn never() -> bool {
    false
}

fn silent(_: &str) {}

fn nobody(_: usize) -> Reply {
    Reply::Ended
}

fn hushed(text: &str) {
    panic!("nobody is there to be shown {:?}", text);
}

fn unheard(attempt: usize) -> Reply {
    panic!("nobody is there to be asked a question for the time {}", attempt);
}

#[test]
fn test_return_means_yes() {
    assert_eq!(interpret(""), Some(true));
    assert_eq!(interpret("\n"), Some(true));
    assert_eq!(interpret("  \n"), Some(true));
}

#[test]
fn test_both_answers_in_any_case() {
    for yes in ["y", "Y", "yes", "YES", " Yes "] {
        assert_eq!(interpret(yes), Some(true), "{:?} should be a yes", yes);
    }
    for no in ["n", "N", "no", "NO", " No "] {
        assert_eq!(interpret(no), Some(false), "{:?} should be a no", no);
    }
}

#[test]
fn test_anything_else_is_not_an_answer() {
    for junk in ["yeah", "sure", "delete", "q", "yn", "1"] {
        assert_eq!(interpret(junk), None, "{:?} should not be an answer", junk);
    }
}

#[test]
fn test_permanent_says_so() {
    let permanent = intent(&Disposal::Permanent, 3, 1024);
    assert!(permanent.contains("PERMANENTLY"));
    assert!(permanent.contains("cannot be undone"));

    assert!(intent(&Disposal::Trash, 3, 1024).contains("trash"));

    let moved = intent(&Disposal::MoveTo("/backup/dupes".to_string()), 3, 1024);
    assert!(moved.contains("/backup/dupes"));
}

#[test]
fn test_intent_counts_files_and_bytes() {
    let text = intent(&Disposal::Trash, 20, 4_080_218_931);
    assert!(text.contains("20 file(s)"), "{}", text);
    assert!(text.contains("3.8GB"), "{}", text);
}

#[test]
fn test_nothing_to_confirm_is_approved() {
    assert!(approve(&Disposal::Permanent, &[], false, true, &never, &hushed, &unheard));
    assert!(approve(&Disposal::Permanent, &[], false, false, &never, &hushed, &unheard));
}

#[test]
fn test_yes_flag_skips_the_question() {
    let targets = [Target { path: "/tmp/a.mkv", size: 1 }];
    assert!(approve(&Disposal::Permanent, &targets, true, true, &never, &hushed, &unheard));
}

#[test]
fn nobody_at_the_terminal_means_nobody_is_asked() {
    let targets = [Target { path: "/tmp/a.mkv", size: 1 }];
    assert!(approve(&Disposal::Permanent, &targets, false, false, &never, &hushed, &unheard));
}

#[test]
fn an_ended_or_unreadable_input_touches_nothing() {
    let targets = [Target { path: "/tmp/a.mkv", size: 1 }];
    assert!(!approve(&Disposal::Permanent, &targets, false, true, &never, &silent, &nobody));
    let broken = |_: usize| Reply::Unreadable;
    assert!(!approve(&Disposal::Permanent, &targets, false, true, &never, &silent, &broken));
}

#[test]
fn an_answer_is_taken_from_the_first_usable_line() {
    let targets = [Target { path: "/tmp/a.mkv", size: 1 }];
    let second = |i: usize| Reply::Line(if i == 0 { "what".to_string() } else { "y\n".to_string() });
    assert!(approve(&Disposal::Permanent, &targets, false, true, &never, &silent, &second));
    let no = |_: usize| Reply::Line("n\n".to_string());
    assert!(!approve(&Disposal::Permanent, &targets, false, true, &never, &silent, &no));
}

#[test]
fn the_question_is_not_asked_for_ever() {
    let targets = [Target { path: "/tmp/a.mkv", size: 1 }];
    let late = |i: usize| {
        Reply::Line(if i < MAX_ATTEMPTS { "what".to_string() } else { "y".to_string() })
    };
    assert!(!approve(&Disposal::Permanent, &targets, false, true, &never, &silent, &late));
}

#[test]
fn an_interrupt_is_a_no() {
    let targets = [Target { path: "/tmp/a.mkv", size: 1 }];
    let stop = || true;
    assert!(!approve(&Disposal::Permanent, &targets, false, true, &stop, &hushed, &unheard));
}

#[test]
fn the_question_lists_only_so_many_files() {
    let paths: Vec<String> = (0..PREVIEW_LIMIT + 2).map(|i| format!("/v/{:02}.mkv", i)).collect();
    let targets: Vec<Target> = paths.iter().map(|p| Target { path: p, size: 1024 }).collect();
    let text = question(&Disposal::Trash, &targets);
    assert!(text.contains("/v/00.mkv"), "{}", text);
    assert!(text.contains(&paths[PREVIEW_LIMIT - 1]), "{}", text);
    assert!(!text.contains(&paths[PREVIEW_LIMIT]), "{}", text);
    assert!(text.contains("and 2 more"), "{}", text);
}

#[test]
fn what_is_about_to_happen_is_shown_before_anything_is_asked() {
    let targets = [Target { path: "/tmp/a.mkv", size: 2048 }];
    let shown = std::cell::RefCell::new(Vec::new());
    let tell = |text: &str| shown.borrow_mut().push(text.to_string());
    let ask = |i: usize| {
        assert!(!shown.borrow().is_empty());
        Reply::Line(if i == 0 { "eh".to_string() } else { "no".to_string() })
    };
    assert!(!approve(&Disposal::Trash, &targets, false, true, &never, &tell, &ask));
    assert_eq!(
        *shown.borrow(),
        vec![
            "\nAbout to move 1 file(s) (2.0KB) to the trash.\n      2.0KB  /tmp/a.mkv\n\
Answer n to print the full report and leave every file alone.\n"
                .to_string(),
            "Please answer y or n.\n".to_string(),
        ]
    );
}

#[test]
fn nothing_is_asked_before_it_was_shown_what_for() {
    let targets = [Target { path: "/tmp/a.mkv", size: 1 }];
    let said = std::cell::RefCell::new(Vec::new());
    let tell = |text: &str| said.borrow_mut().push(text.to_string());
    let ask = |attempt: usize| {
        assert_eq!(said.borrow().len(), attempt + 1);
        Reply::Line("what".to_string())
    };
    assert!(!approve(&Disposal::Trash, &targets, false, true, &never, &tell, &ask));
    let said = said.into_inner();
    assert_eq!(said.len(), 1 + MAX_ATTEMPTS + 1);
    assert_eq!(said[0], question(&Disposal::Trash, &targets));
    assert_eq!(said[1], "Please answer y or n.\n");
    assert_eq!(said[1 + MAX_ATTEMPTS], "No usable answer; nothing will be touched.\n");
}
