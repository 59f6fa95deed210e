use modular_aliases::alias::{Alias, AliasSource};
use modular_aliases::alias_map::AliasMap;
use modular_aliases::conflict::{
    cache_incoming_aliases, conflict_resolver, read_choice, settle_conflict, Choice, Conflict,
    ConflictType, ResolutionState,
};

fn from_file(value: &str, path: &str) -> Alias {
    Alias { value: value.to_string(), source: AliasSource::Path(path.to_string()) }
}

fn state(ignore: bool, accept: bool, auto: bool) -> ResolutionState {
    ResolutionState { ignore_future_conflicts: ignore, accept_all_new: accept, auto_confirm: auto }
}

fn with_g1() -> AliasMap {
    let mut map = AliasMap::new();
    map.insert("g".to_string(), from_file("g1", "aliases/a"));
    map
}

#[test]
fn resolution_state_starts_with_switches_off() {
    assert_eq!(ResolutionState::new(false), state(false, false, false));
    assert_eq!(ResolutionState::new(true), state(false, false, true));
}

#[test]
fn read_choice_maps_keys_to_choices() {
    assert_eq!(read_choice("y"), Choice::Overwrite);
    assert_eq!(read_choice("n"), Choice::Keep);
    assert_eq!(read_choice("i"), Choice::IgnoreAll);
    assert_eq!(read_choice("a"), Choice::AcceptAll);
}

#[test]
fn read_choice_trims_and_ignores_case() {
    assert_eq!(read_choice(" N \n"), Choice::Keep);
    assert_eq!(read_choice("I"), Choice::IgnoreAll);
    assert_eq!(read_choice("\tA"), Choice::AcceptAll);
    assert_eq!(read_choice("Y"), Choice::Overwrite);
}

#[test]
fn read_choice_defaults_to_overwrite() {
    assert_eq!(read_choice(""), Choice::Overwrite);
    assert_eq!(read_choice("no"), Choice::Overwrite);
    assert_eq!(read_choice("x"), Choice::Overwrite);
    assert_eq!(read_choice("n n"), Choice::Overwrite);
    assert_eq!(read_choice("\u{130}"), Choice::Overwrite);
}

#[test]
fn read_choice_agrees_with_lowercase_of_std() {
    for code in 0u32..=0x10FFFF {
        if let Some(c) = char::from_u32(code) {
            let answer = format!(" {} ", c);
            let expected = match answer.trim().to_lowercase().as_str() {
                "n" => Choice::Keep,
                "i" => Choice::IgnoreAll,
                "a" => Choice::AcceptAll,
                _ => Choice::Overwrite,
            };
            assert_eq!(read_choice(&answer), expected, "code point {:x}", code);
        }
    }
}

#[test]
fn conflict_resolver_yes_takes_incoming() {
    let mut s = state(false, false, false);
    let new = from_file("g2", "aliases/b");
    assert_eq!(conflict_resolver(&mut s, &new, "y"), Some(from_file("g2", "aliases/b")));
    assert_eq!(s, state(false, false, false));
}

#[test]
fn conflict_resolver_no_keeps_current() {
    let mut s = state(false, false, false);
    assert_eq!(conflict_resolver(&mut s, &from_file("g2", "aliases/b"), "n"), None);
    assert_eq!(s, state(false, false, false));
}

#[test]
fn conflict_resolver_ignore_all_sets_switch_and_keeps() {
    let mut s = state(false, false, false);
    assert_eq!(conflict_resolver(&mut s, &from_file("g2", "aliases/b"), "i"), None);
    assert_eq!(s, state(true, false, false));
}

#[test]
fn conflict_resolver_accept_all_sets_switch_and_takes() {
    let mut s = state(false, false, true);
    let new = from_file("g2", "aliases/b");
    assert_eq!(conflict_resolver(&mut s, &new, "a"), Some(from_file("g2", "aliases/b")));
    assert_eq!(s, state(false, true, true));
}

#[test]
fn conflict_resolver_unknown_answer_takes_incoming() {
    let mut s = state(true, false, false);
    let new = from_file("g2", "aliases/b");
    assert_eq!(conflict_resolver(&mut s, &new, "what"), Some(from_file("g2", "aliases/b")));
    assert_eq!(s, state(true, false, false));
}

#[test]
fn cache_incoming_inserts_new_name() {
    let mut map = AliasMap::new();
    let r = cache_incoming_aliases("aliases/a", &mut map, " alias g = g1 ", &state(false, false, false));
    assert_eq!(r, None);
    assert_eq!(map.len(), 1);
    assert_eq!(map.get("g"), Some(&from_file("g1", "aliases/a")));
}

#[test]
fn cache_incoming_passes_over_lines_without_alias() {
    let mut map = with_g1();
    for line in ["", "# comment", "alias broken", "export g=g2", "#include:other"] {
        assert_eq!(cache_incoming_aliases("aliases/b", &mut map, line, &state(false, false, true)), None);
    }
    assert_eq!(map.len(), 1);
    assert_eq!(map.get("g"), Some(&from_file("g1", "aliases/a")));
}

#[test]
fn cache_incoming_same_value_changes_nothing() {
    let mut map = with_g1();
    let r = cache_incoming_aliases("aliases/b", &mut map, "alias g=g1", &state(false, false, false));
    assert_eq!(r, None);
    assert_eq!(map.get("g"), Some(&from_file("g1", "aliases/a")));
}

#[test]
fn cache_incoming_auto_confirm_overwrites() {
    let mut map = with_g1();
    let r = cache_incoming_aliases("aliases/b", &mut map, "alias g=g2", &state(true, false, true));
    assert_eq!(r, None);
    assert_eq!(map.get("g"), Some(&from_file("g2", "aliases/b")));
}

#[test]
fn cache_incoming_accept_all_overwrites() {
    let mut map = with_g1();
    let r = cache_incoming_aliases("aliases/b", &mut map, "alias g=g2", &state(true, true, false));
    assert_eq!(r, None);
    assert_eq!(map.get("g"), Some(&from_file("g2", "aliases/b")));
}

#[test]
fn cache_incoming_ignore_all_keeps() {
    let mut map = with_g1();
    let r = cache_incoming_aliases("aliases/b", &mut map, "alias g=g2", &state(true, false, false));
    assert_eq!(r, None);
    assert_eq!(map.get("g"), Some(&from_file("g1", "aliases/a")));
}

#[test]
fn cache_incoming_escalates_unresolved_conflict() {
    let mut map = with_g1();
    let r = cache_incoming_aliases("aliases/b", &mut map, "alias g=g2", &state(false, false, false));
    assert_eq!(
        r,
        Some(Conflict {
            name: "g".to_string(),
            current: from_file("g1", "aliases/a"),
            incoming: from_file("g2", "aliases/b"),
            kind: ConflictType::CacheIncoming,
        })
    );
    assert_eq!(map.get("g"), Some(&from_file("g1", "aliases/a")));
}

#[test]
fn settle_conflict_carries_out_the_answer() {
    let conflict = Conflict {
        name: "g".to_string(),
        current: from_file("g1", "aliases/a"),
        incoming: from_file("g2", "aliases/b"),
        kind: ConflictType::CacheIncoming,
    };
    let mut map = with_g1();
    let mut s = state(false, false, false);
    settle_conflict(&mut map, &mut s, &conflict, "n");
    assert_eq!(map.get("g"), Some(&from_file("g1", "aliases/a")));
    settle_conflict(&mut map, &mut s, &conflict, "i");
    assert_eq!(map.get("g"), Some(&from_file("g1", "aliases/a")));
    assert_eq!(s, state(true, false, false));
    settle_conflict(&mut map, &mut s, &conflict, "a");
    assert_eq!(map.get("g"), Some(&from_file("g2", "aliases/b")));
    assert_eq!(s, state(true, true, false));
}
