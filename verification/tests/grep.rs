use katas::grep::{grep, Flags};

fn files() -> Vec<(String, String)> {
    vec![
        (
            "iliad.txt".to_string(),
            "Achilles sing, O Goddess! Peleus' son;\nHis wrath pernicious, who ten thousand woes\nCaused to Achaia's host, sent many a soul\nIllustrious into Ades premature,\nAnd Heroes gave (so stood the will of Jove)\nTo dogs and to all ravening fowls a prey,\nWhen fierce dispute had separated once\nThe noble Chief Achilles from the son\nOf Atreus, Agamemnon, King of men.\n"
                .to_string(),
        ),
        (
            "midsummer-night.txt".to_string(),
            "I do entreat your grace to pardon me.\nI know not by what power I am made bold,\nNor how it may concern my modesty,\nIn such a presence here to plead my thoughts;\nBut I beseech your grace that I may know\nThe worst that may befall me in this case,\nIf I refuse to wed Demetrius.\n"
                .to_string(),
        ),
        (
            "paradise-lost.txt".to_string(),
            "Of Mans First Disobedience, and the Fruit\nOf that Forbidden Tree, whose mortal tast\nBrought Death into the World, and all our woe,\nWith loss of Eden, till one greater Man\nRestore us, and regain the blissful Seat,\nSing Heav'nly Muse, that on the secret top\nOf Oreb, or of Sinai, didst inspire\nThat Shepherd, who first taught the chosen Seed\n"
                .to_string(),
        ),
    ]
}

fn run(pattern: &str, flags: &[&str], names: &[&str]) -> Vec<String> {
    let all = files();
    let picked: Vec<(String, String)> =
        all.into_iter().filter(|(n, _)| names.contains(&n.as_str())).collect();
    grep(pattern, &Flags::new(flags), &picked)
}

#[test]
fn one_file_one_match_no_flags() {
    assert_eq!(run("Agamemnon", &[], &["iliad.txt"]), vec!["Of Atreus, Agamemnon, King of men."]);
}

#[test]
fn one_file_one_match_print_line_numbers_flag() {
    assert_eq!(
        run("Forbidden", &["-n"], &["paradise-lost.txt"]),
        vec!["2:Of that Forbidden Tree, whose mortal tast"]
    );
}

#[test]
fn one_file_one_match_case_insensitive_flag() {
    assert_eq!(
        run("FORBIDDEN", &["-i"], &["paradise-lost.txt"]),
        vec!["Of that Forbidden Tree, whose mortal tast"]
    );
}

#[test]
fn one_file_one_match_print_file_names_flag() {
    assert_eq!(run("Forbidden", &["-l"], &["paradise-lost.txt"]), vec!["paradise-lost.txt"]);
}

#[test]
fn one_file_one_match_match_entire_lines_flag() {
    assert_eq!(
        run("With loss of Eden, till one greater Man", &["-x"], &["paradise-lost.txt"]),
        vec!["With loss of Eden, till one greater Man"]
    );
    assert_eq!(run("With loss of Eden", &["-x"], &["paradise-lost.txt"]), Vec::<String>::new());
}

#[test]
fn one_file_one_match_multiple_flags() {
    assert_eq!(
        run("OF ATREUS, Agamemnon, KIng of MEN.", &["-x", "-i", "-n"], &["iliad.txt"]),
        vec!["9:Of Atreus, Agamemnon, King of men."]
    );
}

#[test]
fn one_file_several_matches_no_flags() {
    assert_eq!(
        run("may", &[], &["midsummer-night.txt"]),
        vec![
            "Nor how it may concern my modesty,",
            "But I beseech your grace that I may know",
            "The worst that may befall me in this case,",
        ]
    );
}

#[test]
fn one_file_several_matches_inverted_flag() {
    assert_eq!(
        run("Of", &["-v"], &["paradise-lost.txt"]),
        vec![
            "Brought Death into the World, and all our woe,",
            "With loss of Eden, till one greater Man",
            "Restore us, and regain the blissful Seat,",
            "Sing Heav'nly Muse, that on the secret top",
            "That Shepherd, who first taught the chosen Seed",
        ]
    );
}

#[test]
fn one_file_no_matches_various_flags() {
    assert_eq!(run("Gandalf", &["-n", "-l", "-x", "-i"], &["iliad.txt"]), Vec::<String>::new());
}

#[test]
fn multiple_files_one_match_no_flags() {
    assert_eq!(
        run("Agamemnon", &[], &["iliad.txt", "midsummer-night.txt", "paradise-lost.txt"]),
        vec!["iliad.txt:Of Atreus, Agamemnon, King of men."]
    );
}

#[test]
fn multiple_files_several_matches_print_line_numbers_flag() {
    assert_eq!(
        run("that", &["-n"], &["iliad.txt", "midsummer-night.txt", "paradise-lost.txt"]),
        vec![
            "midsummer-night.txt:5:But I beseech your grace that I may know",
            "midsummer-night.txt:6:The worst that may befall me in this case,",
            "paradise-lost.txt:2:Of that Forbidden Tree, whose mortal tast",
            "paradise-lost.txt:6:Sing Heav'nly Muse, that on the secret top",
        ]
    );
}

#[test]
fn multiple_files_one_match_print_file_names_flag() {
    assert_eq!(
        run("who", &["-l"], &["iliad.txt", "midsummer-night.txt", "paradise-lost.txt"]),
        vec!["iliad.txt", "paradise-lost.txt"]
    );
}

#[test]
fn multiple_files_several_matches_case_insensitive_flag() {
    assert_eq!(
        run("TO", &["-i"], &["iliad.txt", "midsummer-night.txt", "paradise-lost.txt"]),
        vec![
            "iliad.txt:Caused to Achaia's host, sent many a soul",
            "iliad.txt:Illustrious into Ades premature,",
            "iliad.txt:And Heroes gave (so stood the will of Jove)",
            "iliad.txt:To dogs and to all ravening fowls a prey,",
            "midsummer-night.txt:I do entreat your grace to pardon me.",
            "midsummer-night.txt:In such a presence here to plead my thoughts;",
            "midsummer-night.txt:If I refuse to wed Demetrius.",
            "paradise-lost.txt:Brought Death into the World, and all our woe,",
            "paradise-lost.txt:Restore us, and regain the blissful Seat,",
            "paradise-lost.txt:Sing Heav'nly Muse, that on the secret top",
        ]
    );
}

#[test]
fn multiple_files_several_matches_inverted_flag() {
    assert_eq!(
        run("a", &["-v"], &["iliad.txt", "midsummer-night.txt", "paradise-lost.txt"]),
        vec![
            "iliad.txt:Achilles sing, O Goddess! Peleus' son;",
            "iliad.txt:The noble Chief Achilles from the son",
            "midsummer-night.txt:If I refuse to wed Demetrius.",
        ]
    );
}

#[test]
fn multiple_files_one_match_match_entire_lines_flag() {
    assert_eq!(
        run(
            "But I beseech your grace that I may know",
            &["-x"],
            &["iliad.txt", "midsummer-night.txt", "paradise-lost.txt"]
        ),
        vec!["midsummer-night.txt:But I beseech your grace that I may know"]
    );
}

#[test]
fn multiple_files_one_match_multiple_flags() {
    assert_eq!(
        run(
            "WITH LOSS OF EDEN, TILL ONE GREATER MAN",
            &["-n", "-i", "-x"],
            &["iliad.txt", "midsummer-night.txt", "paradise-lost.txt"]
        ),
        vec!["paradise-lost.txt:4:With loss of Eden, till one greater Man"]
    );
}

#[test]
fn the_empty_pattern_stands_in_every_line() {
    let text = vec![("t".to_string(), "a\n\nb".to_string())];
    assert_eq!(grep("", &Flags::new(&["-n"]), &text), vec!["1:a", "2:", "3:b"]);
    assert_eq!(grep("", &Flags::new(&["-x", "-n"]), &text), vec!["2:"]);
    assert_eq!(grep("", &Flags::new(&["-v"]), &text), Vec::<String>::new());
}

#[test]
fn line_numbers_of_more_than_one_digit() {
    let mut content = String::new();
    for i in 0..120 {
        content.push_str(if i == 99 || i == 119 { "hit\n" } else { "miss\n" });
    }
    let text = vec![("t".to_string(), content)];
    assert_eq!(grep("hit", &Flags::new(&["-n"]), &text), vec!["100:hit", "120:hit"]);
}

#[test]
fn lines_end_at_line_feeds_with_or_without_carriage_return() {
    let text = vec![("t".to_string(), "one\r\ntwo\nthree".to_string())];
    assert_eq!(grep("t", &Flags::new(&["-x", "-v"]), &text), vec!["one", "two", "three"]);
}

#[test]
fn no_files_no_output() {
    assert_eq!(grep("x", &Flags::new(&[]), &[]), Vec::<String>::new());
}

#[test]
fn a_flag_may_be_given_twice() {
    let text = vec![("t".to_string(), "A\nb".to_string())];
    assert_eq!(grep("a", &Flags::new(&["-i", "-i", "-n", "-n"]), &text), vec!["1:A"]);
}
