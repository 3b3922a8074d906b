use bake::model::{Bakefile, Rule};
use bake::parser::populate_bakefile;
use bake::outcome::Failure;
use bake::resolver::{
    begin_at, clean_url, hosted_request, is_remote_reference, next_request, resolve, Request,
};

fn source_text(request: &Request) -> &'static str {
    match request {
        Request::ReadFile(path) if path == "Bakefile" => {
            "Y=rootval\ninclude:\n\tsecond.bake\n\tthird.bake\nA: B\n\techo $X\n"
        }
        Request::ReadFile(path) if path == "second.bake" => "X=secondval\nB:\n\techo $Y\n",
        Request::ReadFile(path) if path == "third.bake" => "Z=3\ninclude:\n\tfourth.bake\n",
        Request::ReadFile(path) if path == "fourth.bake" => "W=4\n",
        _ => panic!("no such source"),
    }
}

fn load_all(root: &str) -> (Bakefile, Vec<Request>) {
    let mut bakefile = begin_at(root);
    let mut asked = Vec::new();
    while let Some(step) = next_request(&mut bakefile) {
        let request = step.unwrap();
        populate_bakefile(&mut bakefile, source_text(&request));
        asked.push(request);
    }
    (bakefile, asked)
}

#[test]
fn clean_url_strips_one_pair_of_quotes() {
    assert_eq!(clean_url("\"https://example.com/a\""), "https://example.com/a");
    assert_eq!(clean_url("'https://example.com/a'"), "https://example.com/a");
    assert_eq!(clean_url("https://example.com/a"), "https://example.com/a");
    assert_eq!(clean_url("\"\"x\"\""), "\"x\"");
    assert_eq!(clean_url("\"\""), "");
    assert_eq!(clean_url("\"é\""), "é");
}

#[test]
fn clean_url_leaves_quotes_that_do_not_match() {
    assert_eq!(clean_url("\"https://example.com/a'"), "\"https://example.com/a'");
    assert_eq!(clean_url("\"https://example.com/a"), "\"https://example.com/a");
    assert_eq!(clean_url("https://example.com/a\""), "https://example.com/a\"");
    assert_eq!(clean_url("\""), "\"");
    assert_eq!(clean_url("'"), "'");
    assert_eq!(clean_url(""), "");
}

#[test]
fn a_reference_is_remote_where_it_holds_http() {
    assert!(is_remote_reference("http://example.com/x"));
    assert!(is_remote_reference("\"https://example.com/x\""));
    assert!(is_remote_reference("dir/http/file"));
    assert!(!is_remote_reference("common.bake"));
    assert!(!is_remote_reference("HTTP://example.com"));
    assert!(!is_remote_reference("htt"));
    assert!(!is_remote_reference(""));
}

#[test]
fn a_local_reference_is_read_as_it_stands() {
    assert_eq!(resolve("common.bake"), Ok(Request::ReadFile("common.bake".to_string())));
    assert_eq!(resolve("\"quoted.bake\""), Ok(Request::ReadFile("\"quoted.bake\"".to_string())));
    assert_eq!(resolve(""), Ok(Request::ReadFile(String::new())));
}

#[test]
fn a_valid_url_is_fetched_without_its_quotes() {
    assert_eq!(
        resolve("https://example.com/rules.bake"),
        Ok(Request::Fetch("https://example.com/rules.bake".to_string()))
    );
    assert_eq!(
        resolve("\"http://example.com/rules.bake\""),
        Ok(Request::Fetch("http://example.com/rules.bake".to_string()))
    );
    assert_eq!(
        resolve("'http://example.com/a b'"),
        Ok(Request::Fetch("http://example.com/a b".to_string()))
    );
}

#[test]
fn an_invalid_url_is_refused() {
    assert_eq!(resolve("dir/http/file"), Err(Failure::InvalidIncludeUrl));
    assert_eq!(resolve("http://"), Err(Failure::InvalidIncludeUrl));
    assert_eq!(resolve("\"http://example.com'"), Err(Failure::InvalidIncludeUrl));
    assert_eq!(resolve("see http://example.com"), Err(Failure::InvalidIncludeUrl));
}

#[test]
fn hosted_request_follows_the_validation() {
    assert_eq!(hosted_request("anything".to_string(), true), Ok(Request::Fetch("anything".to_string())));
    assert_eq!(hosted_request("http://x".to_string(), false), Err(Failure::InvalidIncludeUrl));
}

#[test]
fn loading_begins_with_the_root_source() {
    let mut bakefile = begin_at("Bakefile");
    assert!(bakefile.variables.is_empty());
    assert!(bakefile.rules.is_empty());
    assert_eq!(bakefile.includes, vec!["Bakefile"]);
    assert_eq!(next_request(&mut bakefile), Some(Ok(Request::ReadFile("Bakefile".to_string()))));
    assert!(bakefile.includes.is_empty());
    assert_eq!(next_request(&mut bakefile), None);
    assert_eq!(bakefile, Bakefile::new());
}

#[test]
fn references_are_taken_most_recent_first() {
    let mut bakefile = Bakefile::new();
    populate_bakefile(&mut bakefile, "include:\n\tone\n\thttp://\n\t'https://example.com/three'");
    assert_eq!(
        next_request(&mut bakefile),
        Some(Ok(Request::Fetch("https://example.com/three".to_string())))
    );
    assert_eq!(bakefile.includes, vec!["one", "http://"]);
    assert_eq!(next_request(&mut bakefile), Some(Err(Failure::InvalidIncludeUrl)));
    assert_eq!(bakefile.includes, vec!["one"]);
    assert_eq!(next_request(&mut bakefile), Some(Ok(Request::ReadFile("one".to_string()))));
    assert_eq!(next_request(&mut bakefile), None);
    assert_eq!(next_request(&mut bakefile), None);
}

#[test]
fn included_sources_are_merged_into_the_model() {
    let (bakefile, asked) = load_all("Bakefile");
    assert_eq!(
        asked,
        vec![
            Request::ReadFile("Bakefile".to_string()),
            Request::ReadFile("third.bake".to_string()),
            Request::ReadFile("fourth.bake".to_string()),
            Request::ReadFile("second.bake".to_string()),
        ]
    );
    let variables: Vec<(&str, &str)> =
        bakefile.variables.iter().map(|(n, v)| (n.as_str(), v.as_str())).collect();
    assert_eq!(variables, vec![("Y", "rootval"), ("Z", "3"), ("W", "4"), ("X", "secondval")]);
    assert_eq!(
        bakefile.rules,
        vec![
            Rule {
                target: "A".to_string(),
                dependencies: vec!["B".to_string()],
                recipe: vec!["echo $X".to_string()],
            },
            Rule { target: "B".to_string(), dependencies: vec![], recipe: vec!["echo $Y".to_string()] },
        ]
    );
    assert!(bakefile.includes.is_empty());
}
