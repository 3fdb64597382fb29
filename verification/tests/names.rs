use offset_finder::process::{find_process, is_named, Process};

fn process(pid: u32, name: &str) -> Process {
    Process { pid, name: Some(String::from(name)) }
}

#[test]
fn names_match_whole_or_behind_a_slash() {
    assert!(is_named("rekordbox", "rekordbox"));
    assert!(is_named("/applications/rekordbox", "rekordbox"));
    assert!(is_named("/rekordbox", "rekordbox"));
    assert!(!is_named("myrekordbox", "rekordbox"));
    assert!(!is_named("rekordbox2", "rekordbox"));
    assert!(!is_named("box", "rekordbox"));
    assert!(is_named("", ""));
    assert!(is_named("a/", ""));
    assert!(!is_named("a", ""));
}

#[test]
fn case_makes_no_difference() {
    let processes = vec![process(1, "launchd"), process(2, "RekordBox")];
    assert_eq!(find_process(&processes, "rekordbox"), Some(1));
    assert_eq!(find_process(&processes, "REKORDBOX"), Some(1));
    assert_eq!(find_process(&processes, "LaunchD"), Some(0));
}

#[test]
fn case_of_other_alphabets_makes_no_difference() {
    let processes = vec![process(1, "ÉTÉ"), process(2, "Öl")];
    assert_eq!(find_process(&processes, "été"), Some(0));
    assert_eq!(find_process(&processes, "öL"), Some(1));
}

#[test]
fn the_first_of_several_is_taken() {
    let processes = vec![
        process(1, "other"),
        process(2, "/Applications/Rekordbox"),
        process(3, "rekordbox"),
    ];
    assert_eq!(find_process(&processes, "rekordbox"), Some(1));
}

#[test]
fn names_that_are_no_text_are_passed_over() {
    let processes = vec![Process { pid: 1, name: None }, process(2, "rekordbox")];
    assert_eq!(find_process(&processes, "rekordbox"), Some(1));
    assert_eq!(find_process(&processes, "none"), None);
    assert_eq!(find_process(&Vec::new(), "rekordbox"), None);
}
