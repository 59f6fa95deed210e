use modular_aliases::collector::ALIAS_DIR;
use modular_aliases::plan::{
    file_name_of, mode_of, order_files, read_options, Mode, Options, BASE_BASHRC, BASHRC,
};

fn strings(list: &[&str]) -> Vec<String> {
    list.iter().map(|s| s.to_string()).collect()
}

#[test]
fn fixed_paths() {
    assert_eq!(ALIAS_DIR, "aliases");
    assert_eq!(BASHRC, ".bashrc");
    assert_eq!(BASE_BASHRC, "/etc/skel/.bashrc");
}

#[test]
fn read_options_finds_the_flags() {
    assert_eq!(
        read_options(&strings(&["prog"])),
        Options { auto_confirm: false, remove_aliases: false }
    );
    assert_eq!(
        read_options(&strings(&["prog", "--auto-confirm"])),
        Options { auto_confirm: true, remove_aliases: false }
    );
    assert_eq!(
        read_options(&strings(&["prog", "x", "-y"])),
        Options { auto_confirm: true, remove_aliases: false }
    );
    assert_eq!(
        read_options(&strings(&["prog", "--remove-aliases", "-y"])),
        Options { auto_confirm: true, remove_aliases: true }
    );
    assert_eq!(
        read_options(&strings(&["prog", "-Y", "--auto-confirm=1", "--remove-alias"])),
        Options { auto_confirm: false, remove_aliases: false }
    );
    assert_eq!(read_options(&Vec::new()), Options { auto_confirm: false, remove_aliases: false });
}

#[test]
fn mode_of_removes_only_from_an_existing_file() {
    let remove = Options { auto_confirm: false, remove_aliases: true };
    let merge = Options { auto_confirm: true, remove_aliases: false };
    assert_eq!(mode_of(remove, true), Mode::RemoveBlock);
    assert_eq!(mode_of(remove, false), Mode::Merge);
    assert_eq!(mode_of(merge, true), Mode::Merge);
    assert_eq!(mode_of(merge, false), Mode::Merge);
}

#[test]
fn file_name_of_is_the_last_component() {
    assert_eq!(file_name_of("aliases/git.sh"), "git.sh");
    assert_eq!(file_name_of("git.sh"), "git.sh");
    assert_eq!(file_name_of("a/b/c"), "c");
    assert_eq!(file_name_of("aliases/"), "");
    assert_eq!(file_name_of(""), "");
}

#[test]
fn order_files_sorts_by_path() {
    let paths = strings(&["aliases/z", "aliases/B", "aliases/a", "aliases/ab", "aliases/10", "aliases/9"]);
    let mut expected = paths.clone();
    expected.sort();
    assert_eq!(order_files("prog", &paths), expected);
    assert_eq!(
        order_files("prog", &paths),
        strings(&["aliases/10", "aliases/9", "aliases/B", "aliases/a", "aliases/ab", "aliases/z"])
    );
}

#[test]
fn order_files_keeps_equal_paths() {
    assert_eq!(
        order_files("prog", &strings(&["aliases/b", "aliases/a", "aliases/b"])),
        strings(&["aliases/a", "aliases/b", "aliases/b"])
    );
}

#[test]
fn order_files_leaves_out_the_program_itself() {
    let paths = strings(&["aliases/b", "aliases/prog", "aliases/a", "aliases/program"]);
    assert_eq!(order_files("prog", &paths), strings(&["aliases/a", "aliases/b", "aliases/program"]));
    assert_eq!(order_files("./prog", &paths).len(), 4);
    assert_eq!(order_files("prog", &Vec::new()), Vec::<String>::new());
}
