use modular_aliases::alias::{Alias, AliasSource};
use modular_aliases::conflict::{read_choice, Choice, Conflict, ConflictType};
use modular_aliases::prompt::{
    conflict_banner, diff_text, diff_title, lay_out_diff, prompt_options, question,
    question_text, show_diff, title_text, Diff,
};

fn conflict(kind: ConflictType) -> Conflict {
    Conflict {
        name: "g".to_string(),
        current: Alias { value: "g1".to_string(), source: AliasSource::Default },
        incoming: Alias { value: "g2".to_string(), source: AliasSource::Path("aliases/b".to_string()) },
        kind,
    }
}

#[test]
fn show_diff_between_files_uses_general_labels() {
    assert_eq!(
        show_diff(&conflict(ConflictType::CacheIncoming)),
        Diff {
            subject: "g".to_string(),
            source_label: "*** Alias loader sources ***".to_string(),
            destination_label: "*** .bashrc file ***".to_string(),
            old_value: "g1".to_string(),
            new_value: "g2".to_string(),
        }
    );
}

#[test]
fn show_diff_at_merge_uses_source_paths() {
    assert_eq!(
        show_diff(&conflict(ConflictType::WriteNew)),
        Diff {
            subject: "g".to_string(),
            source_label: "default".to_string(),
            destination_label: "aliases/b".to_string(),
            old_value: "g1".to_string(),
            new_value: "g2".to_string(),
        }
    );
}

#[test]
fn lay_out_diff_joins_the_four_lines() {
    assert_eq!(
        lay_out_diff("--- a", "+++ b", "-  1", "+  2"),
        "--- a\n+++ b\n@@ -1 +1 @@\n -  1\n +  2\n"
    );
    assert_eq!(lay_out_diff("", "", "", ""), "\n\n@@ -1 +1 @@\n \n \n");
}

#[test]
fn diff_text_without_colours_is_the_plain_layout() {
    console::set_colors_enabled(false);
    assert_eq!(
        diff_text(&show_diff(&conflict(ConflictType::WriteNew))),
        "--- default\n+++ aliases/b\n@@ -1 +1 @@\n -  g1\n +  g2\n"
    );
}

#[test]
fn diff_text_with_colours_paints_red_and_green() {
    console::set_colors_enabled(true);
    assert_eq!(
        diff_text(&show_diff(&conflict(ConflictType::WriteNew))),
        "\u{1b}[31m--- default\u{1b}[0m\n\u{1b}[32m+++ aliases/b\u{1b}[0m\n@@ -1 +1 @@\n \u{1b}[31m-  g1\u{1b}[0m\n \u{1b}[32m+  g2\u{1b}[0m\n"
    );
}

#[test]
fn diff_title_names_the_alias() {
    console::set_colors_enabled(false);
    assert_eq!(diff_title(&show_diff(&conflict(ConflictType::CacheIncoming))), "Alias: g");
    console::set_colors_enabled(true);
    assert_eq!(
        diff_title(&show_diff(&conflict(ConflictType::CacheIncoming))),
        "Alias: \u{1b}[36mg\u{1b}[0m"
    );
    assert_eq!(title_text("x"), "Alias: x");
}

#[test]
fn conflict_banner_is_black_on_cyan() {
    console::set_colors_enabled(false);
    assert_eq!(conflict_banner(), "Conflict!");
    console::set_colors_enabled(true);
    assert_eq!(conflict_banner(), "\u{1b}[30m\u{1b}[46mConflict!\u{1b}[0m");
}

#[test]
fn question_text_depends_on_the_kind() {
    assert_eq!(
        question_text(ConflictType::WriteNew, "g", "g2"),
        "Replace the contents of the new alias g with g2"
    );
    assert_eq!(
        question_text(ConflictType::CacheIncoming, "g", "g2"),
        "Replace the new alias g on your `.bashrc` file with with g2"
    );
}

#[test]
fn question_paints_name_and_value() {
    console::set_colors_enabled(false);
    assert_eq!(
        question(&conflict(ConflictType::WriteNew)),
        "Replace the contents of the new alias g with g2"
    );
    console::set_colors_enabled(true);
    assert_eq!(
        question(&conflict(ConflictType::CacheIncoming)),
        "Replace the new alias \u{1b}[36m\u{1b}[1mg\u{1b}[0m on your `.bashrc` file with with \u{1b}[35mg2\u{1b}[0m"
    );
}

#[test]
fn prompt_options_are_the_four_answers_in_order() {
    let options = prompt_options();
    let keys: Vec<&str> = options.iter().map(|o| o.key.as_str()).collect();
    let labels: Vec<&str> = options.iter().map(|o| o.label.as_str()).collect();
    assert_eq!(keys, vec!["y", "n", "i", "a"]);
    assert_eq!(labels, vec!["Yes", "No", "Ignore all", "Accept all new"]);
    assert_eq!(options[0].description, "Overwrite the existing alias. Default.");
    assert_eq!(options[1].description, "Keep the current the value.");
    assert_eq!(options[2].description, "Ignore all future conflicts.");
    assert_eq!(options[3].description, "Accept all new changes for subsequent conflicts.");
}

#[test]
fn prompt_option_keys_read_back_as_their_choices() {
    let choices: Vec<Choice> = prompt_options().iter().map(|o| read_choice(&o.key)).collect();
    assert_eq!(
        choices,
        vec![Choice::Overwrite, Choice::Keep, Choice::IgnoreAll, Choice::AcceptAll]
    );
}
