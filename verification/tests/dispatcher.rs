use repo_crawler::dispatch::assemble;
use repo_crawler::dispatch::comes_first;
use repo_crawler::dispatch::export;
use repo_crawler::dispatch::sort_by_name;
use repo_crawler::repository::Language;
use repo_crawler::repository::ToJavascript;

fn disp_subject(name: &str, term: &str) -> Language {
    Language { name: String::from(name), search_term: String::from(term), repositories: vec![] }
}

fn disp_names(languages: &Vec<Language>) -> Vec<String> {
    languages.iter().map(|l| l.name.clone()).collect()
}

#[test]
fn subjects_that_finish_in_reverse_order_come_out_in_order() {
    let finished = vec![disp_subject("Rust", "rust"), disp_subject("Go", "go"), disp_subject("C", "c")];
    let out = sort_by_name(finished);
    assert_eq!(disp_names(&out), vec!["C", "Go", "Rust"]);
}

#[test]
fn every_order_of_arrival_gives_the_same_result() {
    let orders: [[&str; 3]; 6] = [
        ["C", "Go", "Rust"],
        ["C", "Rust", "Go"],
        ["Go", "C", "Rust"],
        ["Go", "Rust", "C"],
        ["Rust", "C", "Go"],
        ["Rust", "Go", "C"],
    ];
    for order in orders.iter() {
        let finished: Vec<Language> = order.iter().map(|n| disp_subject(n, "t")).collect();
        assert_eq!(disp_names(&sort_by_name(finished)), vec!["C", "Go", "Rust"]);
    }
}

#[test]
fn names_are_ordered_as_strings_are() {
    let samples = ["", "a", "A", "ab", "a b", "b", "C", "C#", "C++", "Go", "go", "é", "e", "z", "中文", "\u{10348}", "a\"", "Z"];
    for a in samples.iter() {
        for b in samples.iter() {
            assert_eq!(comes_first(a, b), a <= b);
        }
    }
    let mut expected: Vec<String> = samples.iter().map(|s| String::from(*s)).collect();
    expected.sort();
    let given: Vec<Language> = samples.iter().rev().map(|s| disp_subject(s, "t")).collect();
    assert_eq!(disp_names(&sort_by_name(given)), expected);
}

#[test]
fn subjects_of_the_same_name_are_ordered_by_their_text() {
    let given = vec![
        disp_subject("b", "third"),
        disp_subject("a", "x"),
        disp_subject("b", "first"),
        disp_subject("b", "second"),
    ];
    let out = sort_by_name(given);
    let terms: Vec<&str> = out.iter().map(|l| l.search_term.as_str()).collect();
    assert_eq!(terms, vec!["x", "first", "second", "third"]);
}

#[test]
fn the_name_decides_before_the_text_does() {
    // By their texts alone `a"` would come before `a b`; by name `a b` comes first.
    let given = vec![disp_subject("a\"", "1"), disp_subject("a b", "2"), disp_subject("a", "3")];
    assert_eq!(disp_names(&sort_by_name(given)), vec!["a", "a b", "a\""]);
    let given = vec![disp_subject("a", "z"), disp_subject("a b", "a")];
    assert_eq!(disp_names(&sort_by_name(given)), vec!["a", "a b"]);
}

#[test]
fn the_result_never_shows_the_order_of_arrival() {
    let subjects = [("b", "2"), ("a", "9"), ("b", "1"), ("a", "9")];
    let orders: [[usize; 4]; 6] =
        [[0, 1, 2, 3], [3, 2, 1, 0], [1, 0, 3, 2], [2, 3, 0, 1], [0, 2, 1, 3], [3, 0, 2, 1]];
    let mut seen: Vec<String> = vec![];
    for order in orders.iter() {
        let given: Vec<Language> =
            order.iter().map(|i| disp_subject(subjects[*i].0, subjects[*i].1)).collect();
        seen.push(assemble(given));
    }
    for text in seen.iter() {
        assert_eq!(*text, seen[0]);
    }
    let expected = export(&vec![
        disp_subject("a", "9"),
        disp_subject("a", "9"),
        disp_subject("b", "1"),
        disp_subject("b", "2"),
    ]);
    assert_eq!(seen[0], expected);
}

#[test]
fn nothing_and_one_are_in_order() {
    assert!(sort_by_name(vec![]).is_empty());
    assert_eq!(disp_names(&sort_by_name(vec![disp_subject("x", "y")])), vec!["x"]);
}

#[test]
fn the_export_wraps_the_subjects() {
    assert_eq!(export(&vec![]), "export default [\n\n];");
    let a = disp_subject("A", "a");
    let b = disp_subject("B", "b");
    let expected = format!("export default [\n{},\n{}\n];", a.to_javascript(), b.to_javascript());
    assert_eq!(export(&vec![a, b]), expected);
    assert_eq!(
        export(&vec![disp_subject("A", "a")]),
        "export default [\n{name: \"A\", search_term: \"a\", repositories: []}\n];"
    );
}

#[test]
fn assembling_orders_and_then_exports() {
    let text = assemble(vec![disp_subject("Rust", "rust"), disp_subject("Go", "go"), disp_subject("C", "c")]);
    let expected = export(&vec![disp_subject("C", "c"), disp_subject("Go", "go"), disp_subject("Rust", "rust")]);
    assert_eq!(text, expected);
    assert!(text.starts_with("export default [\n{name: \"C\","));
    assert!(text.ends_with("\n];"));
}
