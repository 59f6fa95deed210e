use modular_aliases::alias::{Alias, AliasSource};
use modular_aliases::alias_map::AliasMap;
use modular_aliases::conflict::{Conflict, ConflictType, ResolutionState};
use modular_aliases::merge::{compile_new_aliases, Merger};

fn on_disk(value: &str) -> Alias {
    Alias { value: value.to_string(), source: AliasSource::Default }
}

fn from_file(value: &str) -> Alias {
    Alias { value: value.to_string(), source: AliasSource::Path("aliases/a".to_string()) }
}

fn map(pairs: &[(&str, Alias)]) -> AliasMap {
    let mut m = AliasMap::new();
    for (name, alias) in pairs {
        m.insert(name.to_string(), alias.clone());
    }
    m
}

fn names(map: &AliasMap) -> Vec<String> {
    (0..map.len()).map(|i| map.name_at(i).to_string()).collect()
}

fn conflict(name: &str, old: &str, new: &str) -> Conflict {
    Conflict {
        name: name.to_string(),
        current: on_disk(old),
        incoming: from_file(new),
        kind: ConflictType::WriteNew,
    }
}

#[test]
fn merge_without_auto_confirm_takes_incoming_value() {
    let persisted = map(&[("e", on_disk("old"))]);
    let incoming = map(&[("e", from_file("new"))]);
    let (merger, asked) = compile_new_aliases(persisted, incoming, ResolutionState::new(false));
    assert_eq!(asked, None);
    let merged = merger.finish();
    assert_eq!(names(&merged), vec!["e"]);
    assert_eq!(merged.get("e"), Some(&from_file("new")));
}

#[test]
fn merge_without_auto_confirm_does_not_consult_switches() {
    let persisted = map(&[("e", on_disk("old"))]);
    let incoming = map(&[("e", from_file("new"))]);
    let state = ResolutionState {
        ignore_future_conflicts: true,
        accept_all_new: false,
        auto_confirm: false,
    };
    let (merger, asked) = compile_new_aliases(persisted, incoming, state);
    assert_eq!(asked, None);
    assert_eq!(merger.finish().get("e"), Some(&from_file("new")));
}

#[test]
fn merge_with_auto_confirm_asks_and_no_keeps_old() {
    let persisted = map(&[("e", on_disk("old"))]);
    let incoming = map(&[("e", from_file("new"))]);
    let (mut merger, asked) = compile_new_aliases(persisted, incoming, ResolutionState::new(true));
    assert_eq!(asked, Some(conflict("e", "old", "new")));
    assert!(merger.answer("n"));
    assert_eq!(merger.advance(), None);
    assert_eq!(merger.finish().get("e"), Some(&on_disk("old")));
}

#[test]
fn merge_with_auto_confirm_asks_and_yes_takes_new() {
    let persisted = map(&[("e", on_disk("old"))]);
    let incoming = map(&[("e", from_file("new"))]);
    let (mut merger, asked) = compile_new_aliases(persisted, incoming, ResolutionState::new(true));
    assert_eq!(asked, Some(conflict("e", "old", "new")));
    assert!(merger.answer("y"));
    assert_eq!(merger.advance(), None);
    assert_eq!(merger.finish().get("e"), Some(&from_file("new")));
}

#[test]
fn merge_with_auto_confirm_asks_about_every_conflict() {
    let persisted = map(&[("a", on_disk("a0")), ("b", on_disk("b0")), ("c", on_disk("c0"))]);
    let incoming = map(&[("a", from_file("a1")), ("b", from_file("b1")), ("c", from_file("c1"))]);
    let (mut merger, asked) = compile_new_aliases(persisted, incoming, ResolutionState::new(true));
    assert_eq!(asked, Some(conflict("a", "a0", "a1")));
    assert!(merger.answer("i"));
    assert_eq!(merger.advance(), Some(conflict("b", "b0", "b1")));
    assert!(merger.answer("a"));
    assert_eq!(merger.advance(), Some(conflict("c", "c0", "c1")));
    assert!(merger.answer("n"));
    assert_eq!(merger.advance(), None);
    assert_eq!(
        merger.state(),
        ResolutionState { ignore_future_conflicts: true, accept_all_new: true, auto_confirm: true }
    );
    let merged = merger.finish();
    assert_eq!(merged.get("a"), Some(&on_disk("a0")));
    assert_eq!(merged.get("b"), Some(&from_file("b1")));
    assert_eq!(merged.get("c"), Some(&on_disk("c0")));
}

#[test]
fn merge_holds_every_name_of_either_input_once() {
    let persisted = map(&[("only_disk", on_disk("d")), ("same", on_disk("s")), ("both", on_disk("x"))]);
    let incoming = map(&[("only_file", from_file("f")), ("same", from_file("s")), ("both", from_file("y"))]);
    for auto in [false, true] {
        let (mut merger, mut asked) =
            compile_new_aliases(persisted.clone(), incoming.clone(), ResolutionState::new(auto));
        while asked.is_some() {
            assert!(merger.answer("y"));
            asked = merger.advance();
        }
        let merged = merger.finish();
        assert_eq!(names(&merged), vec!["both", "only_disk", "only_file", "same"]);
        assert_eq!(merged.get("only_disk"), Some(&on_disk("d")));
        assert_eq!(merged.get("only_file"), Some(&from_file("f")));
        assert_eq!(merged.get("same"), Some(&on_disk("s")));
        assert_eq!(merged.get("both"), Some(&from_file("y")));
    }
}

#[test]
fn merge_of_empty_sets() {
    let (merger, asked) = compile_new_aliases(AliasMap::new(), AliasMap::new(), ResolutionState::new(true));
    assert_eq!(asked, None);
    assert_eq!(merger.finish().len(), 0);
}

#[test]
fn merger_rejects_an_answer_that_was_not_asked_for() {
    let mut merger = Merger::new(
        map(&[("e", on_disk("old"))]),
        map(&[("e", from_file("new"))]),
        ResolutionState::new(true),
    );
    assert!(!merger.answer("y"));
    assert_eq!(merger.advance(), Some(conflict("e", "old", "new")));
    assert_eq!(merger.advance(), Some(conflict("e", "old", "new")));
    assert!(merger.answer("y"));
    assert!(!merger.answer("n"));
    assert_eq!(merger.finish().get("e"), Some(&from_file("new")));
}
