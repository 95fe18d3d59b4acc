use repo_crawler::repository::to_field;
use repo_crawler::repository::to_object;
use repo_crawler::repository::Label;
use repo_crawler::repository::Language;
use repo_crawler::repository::Repository;
use repo_crawler::repository::ToJavascript;
use repo_crawler::repository::Topic;
use repo_crawler::text::decimal_text;
use repo_crawler::text::escape;
use repo_crawler::text::join;

fn emitter_repository(description: &str) -> Repository {
    Repository {
        name_with_owner: String::from("rust-lang/rust"),
        url: String::from("https://github.com/rust-lang/rust"),
        description: String::from(description),
        homepage_url: String::from("https://www.rust-lang.org"),
        avatar_url: String::from("https://avatars/5430905"),
        num_forks: 12,
        num_issues: 345,
        num_pull_requests: 67,
        num_stars: 8910,
        topics: vec![Topic { name: String::from("compiler"), url: String::from("https://t/c") }],
        labels: vec![
            Label { name: String::from("E-easy"), count: 7, color: String::from("02e10c") },
            Label { name: String::from("easy"), count: 2, color: String::from("fff") },
        ],
        languages: vec![String::from("Rust"), String::from("Python")],
        issues: vec![],
    }
}

#[test]
fn string_is_quoted_and_escaped() {
    assert_eq!(String::from("plain").to_javascript(), "\"plain\"");
    assert_eq!(String::new().to_javascript(), "\"\"");
    assert_eq!(String::from("a\\b\"c").to_javascript(), "\"a\\\\b\\\"c\"");
}

#[test]
fn backslash_is_escaped_once() {
    // A backslash in front of a quote: both are escaped, each once.
    assert_eq!(escape("\\\""), "\\\\\\\"");
    assert_eq!(escape("\\"), "\\\\");
    assert_eq!(escape("\""), "\\\"");
    assert_eq!(escape("\\\\"), "\\\\\\\\");
    assert_eq!(escape(""), "");
    assert_eq!(escape("new\nline and 'single'"), "new\nline and 'single'");
    assert_eq!(escape("héllo ✓"), "héllo ✓");
}

#[test]
fn escaping_matches_replacing_backslash_then_quote() {
    let samples = ["", "a", "\\", "\"", "\\\"", "\"\\", "a\\b\"c\\\\d\"\"", "x\\\"y"];
    for s in samples.iter() {
        let expected = s.replace("\\", "\\\\").replace("\"", "\\\"");
        assert_eq!(escape(s), expected);
    }
}

#[test]
fn integers_are_decimal() {
    assert_eq!(0i64.to_javascript(), "0");
    assert_eq!(7i64.to_javascript(), "7");
    assert_eq!(9i64.to_javascript(), "9");
    assert_eq!(10i64.to_javascript(), "10");
    assert_eq!(1234567890i64.to_javascript(), "1234567890");
    assert_eq!((-1i64).to_javascript(), "-1");
    assert_eq!((-42i64).to_javascript(), "-42");
    assert_eq!(i64::MAX.to_javascript(), "9223372036854775807");
    assert_eq!(i64::MIN.to_javascript(), "-9223372036854775808");
}

#[test]
fn decimal_text_agrees_with_the_standard_rendering() {
    let samples = [0i64, 1, -1, 5, 10, 99, 100, 101, -100, 1000000, 4611686018427387904, i64::MAX, i64::MIN, i64::MIN + 1];
    for n in samples.iter() {
        assert_eq!(decimal_text(*n), n.to_string());
    }
}

#[test]
fn sequences_are_bracketed() {
    let empty: Vec<i64> = vec![];
    assert_eq!(empty.to_javascript(), "[]");
    assert_eq!(vec![1i64].to_javascript(), "[1]");
    assert_eq!(vec![1i64, 2, 3].to_javascript(), "[1, 2, 3]");
    assert_eq!(
        vec![String::from("a"), String::from("b\"")].to_javascript(),
        "[\"a\", \"b\\\"\"]"
    );
    let nested: Vec<Vec<String>> = vec![vec![], vec![String::from("x")]];
    assert_eq!(nested.to_javascript(), "[[], [\"x\"]]");
}

#[test]
fn pairs_are_sequences_of_two() {
    assert_eq!((String::from("a"), 5i64).to_javascript(), "[\"a\", 5]");
    assert_eq!((1i64, vec![2i64, 3]).to_javascript(), "[1, [2, 3]]");
}

#[test]
fn join_puts_the_separator_between_neighbours() {
    let none: Vec<String> = vec![];
    assert_eq!(join(&none, ","), "");
    assert_eq!(join(&vec![String::from("a")], ","), "a");
    assert_eq!(join(&vec![String::from("a"), String::from("b"), String::from("c")], ",\n"), "a,\nb,\nc");
    assert_eq!(join(&vec![String::new(), String::new()], "-"), "-");
}

#[test]
fn fields_and_objects() {
    assert_eq!(to_field("k", &4i64), "k: 4");
    assert_eq!(to_field("name", &String::from("v")), "name: \"v\"");
    assert_eq!(to_field("", &vec![1i64]), ": [1]");
    assert_eq!(to_object("a: 1"), "{a: 1}");
    assert_eq!(to_object(""), "{}");
}

#[test]
fn topic_and_label_objects() {
    let t = Topic { name: String::from("rust"), url: String::from("https://x/rust") };
    assert_eq!(t.to_javascript(), "{name: \"rust\", url: \"https://x/rust\"}");
    let l = Label { name: String::from("easy"), count: 3, color: String::from("ff0000") };
    assert_eq!(l.to_javascript(), "{name: \"easy\", count: 3, color: \"ff0000\"}");
}

#[test]
fn fields_are_parted_by_a_comma_and_a_space() {
    let t = Topic { name: String::from("cli"), url: String::from("https://e.x/cli") };
    assert_eq!(t.to_javascript(), "{name: \"cli\", url: \"https://e.x/cli\"}");
    let l = Label { name: String::from("easy"), count: 2, color: String::from("0f0") };
    assert_eq!(l.to_javascript(), "{name: \"easy\", count: 2, color: \"0f0\"}");
}

#[test]
fn repository_fields_come_in_declared_order() {
    let r = emitter_repository("A language");
    let expected = "{name_with_owner: \"rust-lang/rust\", \
url: \"https://github.com/rust-lang/rust\", \
description: \"A language\", \
homepage_url: \"https://www.rust-lang.org\", \
avatar_url: \"https://avatars/5430905\", \
num_forks: 12, \
num_issues: 345, \
num_pull_requests: 67, \
num_stars: 8910, \
topics: [{name: \"compiler\", url: \"https://t/c\"}], \
labels: [{name: \"E-easy\", count: 7, color: \"02e10c\"}, {name: \"easy\", count: 2, color: \"fff\"}], \
languages: [\"Rust\", \"Python\"], \
issues: []}";
    assert_eq!(r.to_javascript(), expected);
}

#[test]
fn language_object_starts_with_its_name() {
    let empty = Language {
        name: String::from("Rust"),
        search_term: String::from("rust"),
        repositories: vec![],
    };
    assert_eq!(
        empty.to_javascript(),
        "{name: \"Rust\", search_term: \"rust\", repositories: []}"
    );
    let one = Language {
        name: String::from("C++"),
        search_term: String::from("cpp"),
        repositories: vec![emitter_repository("d"), emitter_repository("e")],
    };
    let text = one.to_javascript();
    let first = emitter_repository("d").to_javascript();
    let second = emitter_repository("e").to_javascript();
    assert_eq!(
        text,
        format!("{{name: \"C++\", search_term: \"cpp\", repositories: [{}, {}]}}", first, second)
    );
}

#[test]
fn description_with_backslash_and_quote_reads_back() {
    let description = "path C:\\dir and a \"quoted\" word, then \\\" both";
    let text = emitter_repository(description).to_javascript();
    let start = text.find("description: ").expect("the description is a field") + "description: ".len();
    let mut values = serde_json::Deserializer::from_str(&text[start..]).into_iter::<String>();
    let back = values.next().expect("a literal follows").expect("the literal is well formed");
    assert!(text[start + values.byte_offset()..].starts_with(", homepage_url: "));
    assert_eq!(back, description);
}

#[test]
fn quoted_strings_read_back() {
    let samples = ["", "\\", "\"", "\\\"", "a\\\\b", "\"\"", "tab-free ünïcode ✓", "\\n is two characters"];
    for s in samples.iter() {
        let literal = String::from(*s).to_javascript();
        let back: String = serde_json::from_str(&literal).expect("the literal is well formed");
        assert_eq!(back, *s);
    }
}

/// The literal with the names of its fields quoted, which makes it JSON.
fn emitter_as_json(text: &str) -> String {
    let chars: Vec<char> = text.chars().collect();
    let mut out = String::new();
    let mut in_string = false;
    let mut i = 0;
    while i < chars.len() {
        let c = chars[i];
        if in_string {
            out.push(c);
            if c == '\\' {
                i += 1;
                out.push(chars[i]);
            } else if c == '"' {
                in_string = false;
            }
            i += 1;
        } else if c == '"' {
            in_string = true;
            out.push(c);
            i += 1;
        } else if c.is_ascii_alphabetic() || c == '_' {
            out.push('"');
            while i < chars.len() && (chars[i].is_ascii_alphanumeric() || chars[i] == '_') {
                out.push(chars[i]);
                i += 1;
            }
            out.push('"');
        } else {
            out.push(c);
            i += 1;
        }
    }
    out
}

#[test]
fn a_whole_repository_reads_back() {
    let mut r = emitter_repository("a \\ and a \" and {name: \"x\", count: 1} inside, too");
    r.num_forks = -3;
    r.num_stars = i64::MAX;
    r.issues = vec![vec![String::from("a"), String::from("b, c")], vec![]];
    let text = r.to_javascript();
    let v: serde_json::Value = serde_json::from_str(&emitter_as_json(&text)).expect("an object");
    assert_eq!(v["name_with_owner"].as_str(), Some(r.name_with_owner.as_str()));
    assert_eq!(v["url"].as_str(), Some(r.url.as_str()));
    assert_eq!(v["description"].as_str(), Some(r.description.as_str()));
    assert_eq!(v["homepage_url"].as_str(), Some(r.homepage_url.as_str()));
    assert_eq!(v["avatar_url"].as_str(), Some(r.avatar_url.as_str()));
    assert_eq!(v["num_forks"].as_i64(), Some(-3));
    assert_eq!(v["num_issues"].as_i64(), Some(345));
    assert_eq!(v["num_pull_requests"].as_i64(), Some(67));
    assert_eq!(v["num_stars"].as_i64(), Some(i64::MAX));
    let topics = v["topics"].as_array().expect("a sequence");
    assert_eq!(topics.len(), 1);
    assert_eq!(topics[0]["name"].as_str(), Some("compiler"));
    assert_eq!(topics[0]["url"].as_str(), Some("https://t/c"));
    let labels = v["labels"].as_array().expect("a sequence");
    assert_eq!(labels.len(), 2);
    assert_eq!(labels[0]["name"].as_str(), Some("E-easy"));
    assert_eq!(labels[0]["count"].as_i64(), Some(7));
    assert_eq!(labels[0]["color"].as_str(), Some("02e10c"));
    assert_eq!(labels[1]["name"].as_str(), Some("easy"));
    assert_eq!(labels[1]["count"].as_i64(), Some(2));
    assert_eq!(labels[1]["color"].as_str(), Some("fff"));
    let languages: Vec<&str> =
        v["languages"].as_array().expect("a sequence").iter().map(|l| l.as_str().unwrap()).collect();
    assert_eq!(languages, vec!["Rust", "Python"]);
    let issues = v["issues"].as_array().expect("a sequence");
    assert_eq!(issues.len(), 2);
    assert_eq!(issues[0][0].as_str(), Some("a"));
    assert_eq!(issues[0][1].as_str(), Some("b, c"));
    assert_eq!(issues[1].as_array().map(|a| a.len()), Some(0));
    assert_eq!(v.as_object().map(|o| o.len()), Some(13));
}

#[test]
fn a_whole_subject_reads_back() {
    let l = Language {
        name: String::from("C\"++\\"),
        search_term: String::from("cpp"),
        repositories: vec![emitter_repository("one"), emitter_repository("two, three")],
    };
    let v: serde_json::Value =
        serde_json::from_str(&emitter_as_json(&l.to_javascript())).expect("an object");
    assert_eq!(v["name"].as_str(), Some("C\"++\\"));
    assert_eq!(v["search_term"].as_str(), Some("cpp"));
    let repositories = v["repositories"].as_array().expect("a sequence");
    assert_eq!(repositories.len(), 2);
    assert_eq!(repositories[0]["description"].as_str(), Some("one"));
    assert_eq!(repositories[1]["description"].as_str(), Some("two, three"));
    assert_eq!(repositories[1]["num_stars"].as_i64(), Some(8910));
    assert_eq!(v.as_object().map(|o| o.len()), Some(3));
}
