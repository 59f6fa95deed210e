use modular_aliases::alias::{Alias, AliasSource};
use modular_aliases::collector::{included_file, Collector, Request};
use modular_aliases::conflict::{Conflict, ConflictType, ResolutionState};

fn from_file(value: &str, path: &str) -> Alias {
    Alias { value: value.to_string(), source: AliasSource::Path(path.to_string()) }
}

fn paths(list: &[&str]) -> Vec<String> {
    list.iter().map(|s| s.to_string()).collect()
}

/// Drives a collection over files held in memory. A file that is not listed
/// does not exist. Each conflict takes the next answer.
fn drive(collector: &mut Collector, files: &[(&str, &str)], answers: &[&str]) -> Vec<Request> {
    let mut log = Vec::new();
    let mut next_answer = 0;
    loop {
        let request = collector.advance();
        log.push(request.clone());
        match request {
            Request::Nothing => return log,
            Request::ReadFile(path) | Request::ReadInclude(path) => {
                match files.iter().find(|(p, _)| *p == path) {
                    Some((_, content)) => assert!(collector.file_opened(content)),
                    None => assert!(collector.file_missing()),
                }
            },
            Request::Resolve(_) => {
                assert!(collector.answer(answers[next_answer]));
                next_answer += 1;
            },
        }
    }
}

#[test]
fn included_file_resolves_under_the_alias_directory() {
    assert_eq!(included_file("#include:git"), Some("aliases/git".to_string()));
    assert_eq!(included_file("  #include:  sub/git.sh  "), Some("aliases/sub/git.sh".to_string()));
    assert_eq!(included_file("#include:"), Some("aliases/".to_string()));
}

#[test]
fn included_file_needs_the_prefix() {
    assert_eq!(included_file("# include:git"), None);
    assert_eq!(included_file("#include git"), None);
    assert_eq!(included_file("alias a=#include:git"), None);
    assert_eq!(included_file(""), None);
}

#[test]
fn collector_without_files_is_finished_at_once() {
    let mut c = Collector::new(false, "prog", &Vec::new());
    assert_eq!(c.advance(), Request::Nothing);
    assert_eq!(c.advance(), Request::Nothing);
    assert_eq!(c.finish().len(), 0);
}

#[test]
fn collector_later_file_wins_under_auto_confirm() {
    let files = [("aliases/a", "alias g=g1\n"), ("aliases/b", "alias g=g2\n")];
    let mut c = Collector::new(true, "prog", &paths(&["aliases/b", "aliases/a"]));
    let log = drive(&mut c, &files, &[]);
    assert_eq!(
        log,
        vec![
            Request::ReadFile("aliases/a".to_string()),
            Request::ReadFile("aliases/b".to_string()),
            Request::Nothing,
        ]
    );
    let aliases = c.finish();
    assert_eq!(aliases.len(), 1);
    assert_eq!(aliases.get("g"), Some(&from_file("g2", "aliases/b")));
}

#[test]
fn collector_asks_about_a_conflict_between_files() {
    let files = [("aliases/a", "alias g=g1\nalias h=h1\n"), ("aliases/b", "alias g=g2\nalias k=k2")];
    let mut c = Collector::new(false, "prog", &paths(&["aliases/a", "aliases/b"]));
    let log = drive(&mut c, &files, &["n"]);
    assert_eq!(
        log[2],
        Request::Resolve(Conflict {
            name: "g".to_string(),
            current: from_file("g1", "aliases/a"),
            incoming: from_file("g2", "aliases/b"),
            kind: ConflictType::CacheIncoming,
        })
    );
    assert_eq!(log.len(), 4);
    let aliases = c.finish();
    assert_eq!(aliases.get("g"), Some(&from_file("g1", "aliases/a")));
    assert_eq!(aliases.get("h"), Some(&from_file("h1", "aliases/a")));
    assert_eq!(aliases.get("k"), Some(&from_file("k2", "aliases/b")));
}

#[test]
fn collector_yes_overwrites_only_that_conflict() {
    let files = [("aliases/a", "alias g=g1\nalias h=h1\n"), ("aliases/b", "alias g=g2\nalias h=h2\n")];
    let mut c = Collector::new(false, "prog", &paths(&["aliases/a", "aliases/b"]));
    let log = drive(&mut c, &files, &["y", "n"]);
    assert_eq!(log.len(), 5);
    assert_eq!(c.state(), ResolutionState::new(false));
    let aliases = c.finish();
    assert_eq!(aliases.get("g"), Some(&from_file("g2", "aliases/b")));
    assert_eq!(aliases.get("h"), Some(&from_file("h1", "aliases/a")));
}

#[test]
fn collector_ignore_all_keeps_every_later_conflict() {
    let files = [("aliases/a", "alias g=g1\nalias h=h1\n"), ("aliases/b", "alias g=g2\nalias h=h2\n")];
    let mut c = Collector::new(false, "prog", &paths(&["aliases/a", "aliases/b"]));
    let log = drive(&mut c, &files, &["i"]);
    assert_eq!(log.len(), 4);
    assert!(c.state().ignore_future_conflicts);
    let aliases = c.finish();
    assert_eq!(aliases.get("g"), Some(&from_file("g1", "aliases/a")));
    assert_eq!(aliases.get("h"), Some(&from_file("h1", "aliases/a")));
}

#[test]
fn collector_accept_all_overwrites_every_later_conflict() {
    let files = [("aliases/a", "alias g=g1\nalias h=h1\n"), ("aliases/b", "alias g=g2\nalias h=h2\n")];
    let mut c = Collector::new(false, "prog", &paths(&["aliases/a", "aliases/b"]));
    let log = drive(&mut c, &files, &["a"]);
    assert_eq!(log.len(), 4);
    assert!(c.state().accept_all_new);
    let aliases = c.finish();
    assert_eq!(aliases.get("g"), Some(&from_file("g2", "aliases/b")));
    assert_eq!(aliases.get("h"), Some(&from_file("h2", "aliases/b")));
}

#[test]
fn collector_takes_an_included_file_in_where_the_line_stands() {
    let files = [
        ("aliases/a", "alias x=before\n#include:shared\nalias y=after\n"),
        ("aliases/shared", "alias x=shared\nalias y=shared\n"),
    ];
    let mut c = Collector::new(true, "prog", &paths(&["aliases/a"]));
    let log = drive(&mut c, &files, &[]);
    assert_eq!(
        log,
        vec![
            Request::ReadFile("aliases/a".to_string()),
            Request::ReadInclude("aliases/shared".to_string()),
            Request::Nothing,
        ]
    );
    let aliases = c.finish();
    assert_eq!(aliases.get("x"), Some(&from_file("shared", "aliases/shared")));
    assert_eq!(aliases.get("y"), Some(&from_file("after", "aliases/a")));
}

#[test]
fn collector_takes_an_included_file_in_only_once() {
    let files = [
        ("aliases/a", "#include:shared\n#include: shared \nalias a=1\n"),
        ("aliases/b", "#include:shared\nalias b=2\n"),
        ("aliases/shared", "alias s=0\n#include:shared\n#include:a\n"),
    ];
    let mut c = Collector::new(true, "prog", &paths(&["aliases/a", "aliases/b"]));
    let log = drive(&mut c, &files, &[]);
    assert_eq!(
        log,
        vec![
            Request::ReadFile("aliases/a".to_string()),
            Request::ReadInclude("aliases/shared".to_string()),
            Request::ReadInclude("aliases/a".to_string()),
            Request::ReadFile("aliases/b".to_string()),
            Request::Nothing,
        ]
    );
    let aliases = c.finish();
    assert_eq!(aliases.len(), 3);
    assert_eq!(aliases.get("s"), Some(&from_file("0", "aliases/shared")));
}

#[test]
fn collector_passes_over_a_missing_included_file() {
    let files = [("aliases/a", "alias x=1\n#include:nowhere\nalias y=2\n#include:nowhere\nalias z=3")];
    let mut c = Collector::new(false, "prog", &paths(&["aliases/a"]));
    let log = drive(&mut c, &files, &[]);
    assert_eq!(
        log,
        vec![
            Request::ReadFile("aliases/a".to_string()),
            Request::ReadInclude("aliases/nowhere".to_string()),
            Request::ReadInclude("aliases/nowhere".to_string()),
            Request::Nothing,
        ]
    );
    let aliases = c.finish();
    assert_eq!(aliases.len(), 3);
    assert_eq!(aliases.get("y"), Some(&from_file("2", "aliases/a")));
    assert_eq!(aliases.get("z"), Some(&from_file("3", "aliases/a")));
}

#[test]
fn collector_takes_files_by_path_and_leaves_out_the_program() {
    let files = [
        ("aliases/10", "alias n=10\n"),
        ("aliases/9", "alias n=9\n"),
        ("aliases/B", "alias n=B\n"),
        ("aliases/a", "alias n=a\n"),
        ("aliases/prog", "alias n=prog\n"),
    ];
    let listed = paths(&["aliases/a", "aliases/prog", "aliases/9", "aliases/B", "aliases/10"]);
    let mut c = Collector::new(true, "prog", &listed);
    let log = drive(&mut c, &files, &[]);
    assert_eq!(
        log,
        vec![
            Request::ReadFile("aliases/10".to_string()),
            Request::ReadFile("aliases/9".to_string()),
            Request::ReadFile("aliases/B".to_string()),
            Request::ReadFile("aliases/a".to_string()),
            Request::Nothing,
        ]
    );
    assert_eq!(c.finish().get("n"), Some(&from_file("a", "aliases/a")));
}

#[test]
fn collector_rejects_what_was_not_asked_for() {
    let mut c = Collector::new(false, "prog", &paths(&["aliases/a"]));
    assert!(!c.file_opened("alias a=1"));
    assert!(!c.file_missing());
    assert!(!c.answer("y"));
    assert_eq!(c.advance(), Request::ReadFile("aliases/a".to_string()));
    assert!(!c.file_missing());
    assert!(!c.answer("y"));
    assert_eq!(c.advance(), Request::ReadFile("aliases/a".to_string()));
    assert!(c.file_opened("alias a=1\n#include:b"));
    assert_eq!(c.aliases().len(), 0);
    assert_eq!(c.advance(), Request::ReadInclude("aliases/b".to_string()));
    assert!(!c.answer("y"));
    assert!(c.file_missing());
    assert_eq!(c.advance(), Request::Nothing);
    assert_eq!(c.aliases().get("a"), Some(&from_file("1", "aliases/a")));
}

#[test]
fn collector_reads_lines_with_carriage_returns() {
    let files = [("aliases/a", "alias a=1\r\n  alias b = 2 \r\n\r\n")];
    let mut c = Collector::new(false, "prog", &paths(&["aliases/a"]));
    drive(&mut c, &files, &[]);
    let aliases = c.finish();
    assert_eq!(aliases.get("a"), Some(&from_file("1", "aliases/a")));
    assert_eq!(aliases.get("b"), Some(&from_file("2", "aliases/a")));
}
