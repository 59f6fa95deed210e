//! What a run is asked to do, and in which order the alias files are taken.

use crate::block::{MODULAR_ALIAS_END_MARKER, MODULAR_ALIAS_START_MARKER};
use crate::section::{remove_section, without_sections};
use crate::text::{
    chars_of, holds_text, lemma_lex_irreflexive, lemma_lex_transitive, lex_less, rank, same_text,
    substring, views_of, Rank,
};
use vstd::prelude::*;
use vstd::seq_lib::{to_multiset_build, to_multiset_insert};

verus! {

/// The startup file that holds the managed block.
pub const BASHRC: &'static str = ".bashrc";

/// The file whose content stands in for the startup file where there is none
/// yet.
pub const BASE_BASHRC: &'static str = "/etc/skel/.bashrc";

/// What the command line asks for.
#[derive(Clone, Copy, Debug, PartialEq, Eq, Structural)]
pub struct Options {
    /// Do not ask while the alias files are read.
    pub auto_confirm: bool,
    /// Take the managed block out of the startup file and do nothing else.
    pub remove_aliases: bool,
}

/// The options that a command line gives: `--auto-confirm` or `-y`, and
/// `--remove-aliases`, wherever they stand.
pub open spec fn options_of(args: Seq<Seq<char>>) -> Options {
    Options {
        auto_confirm: args.contains("--auto-confirm"@) || args.contains("-y"@),
        remove_aliases: args.contains("--remove-aliases"@),
    }
}

/// Reads the options off the command line.
pub fn read_options(args: &Vec<String>) -> (options: Options)
    ensures
        options == options_of(views_of(args@)),
{
    Options {
        auto_confirm: holds_text(args, "--auto-confirm") || holds_text(args, "-y"),
        remove_aliases: holds_text(args, "--remove-aliases"),
    }
}

/// The two things a run can do.
#[derive(Clone, Copy, Debug, PartialEq, Eq, Structural)]
pub enum Mode {
    /// Take the managed block out of the startup file.
    RemoveBlock,
    /// Collect the alias files and write a new managed block.
    Merge,
}

/// What the run does: the block is only removed where that was asked for and
/// the startup file exists. In every other case the run merges.
pub fn mode_of(options: Options, startup_file_exists: bool) -> (mode: Mode)
    ensures
        mode == if startup_file_exists && options.remove_aliases {
            Mode::RemoveBlock
        } else {
            Mode::Merge
        },
{
    if startup_file_exists && options.remove_aliases {
        Mode::RemoveBlock
    } else {
        Mode::Merge
    }
}

/// The content of the startup file without any managed block.
pub fn strip_block(content: &str) -> (r: String)
    ensures
        r@ == without_sections(
            content@,
            MODULAR_ALIAS_START_MARKER@,
            MODULAR_ALIAS_END_MARKER@,
        ),
{
    remove_section(content, MODULAR_ALIAS_START_MARKER, MODULAR_ALIAS_END_MARKER)
}

/// The last component of a path: what follows its last `/`.
pub open spec fn file_name(path: Seq<char>) -> Seq<char>
    decreases path.len(),
{
    if path.len() == 0 || path.last() == '/' {
        Seq::empty()
    } else {
        file_name(path.drop_last()).push(path.last())
    }
}

/// The last component of `path`.
pub fn file_name_of(path: &str) -> (name: String)
    ensures
        name@ == file_name(path@),
{
    let chars = chars_of(path);
    let n = chars.len();
    let mut i: usize = n;
    proof {
        assert(chars@.subrange(0, n as int) =~= chars@);
        assert(file_name(chars@) + chars@.subrange(n as int, n as int) =~= file_name(chars@));
    }
    while i > 0 && chars[i - 1] != '/'
        invariant
            i <= n,
            n == chars.len(),
            file_name(chars@) == file_name(chars@.subrange(0, i as int)) + chars@.subrange(
                i as int,
                n as int,
            ),
        decreases i,
    {
        proof {
            let head = chars@.subrange(0, i as int);
            assert(head.drop_last() =~= chars@.subrange(0, i - 1));
            assert(file_name(head.drop_last()).push(head.last()) + chars@.subrange(
                i as int,
                n as int,
            ) =~= file_name(head.drop_last()) + chars@.subrange(i - 1, n as int));
        }
        i -= 1;
    }
    proof {
        assert(file_name(chars@.subrange(0, i as int)) + chars@.subrange(i as int, n as int)
            =~= chars@.subrange(i as int, n as int));
    }
    substring(path, i, n)
}

/// No text of `s` comes before an earlier one.
pub open spec fn in_order(s: Seq<Seq<char>>) -> bool {
    forall|i: int, j: int| 0 <= i < j < s.len() ==> !lex_less(#[trigger] s[j], #[trigger] s[i])
}

/// The paths that are taken as alias files when the program is called
/// `program`: those whose last component is not that name.
pub open spec fn is_candidate(program: Seq<char>) -> spec_fn(Seq<char>) -> bool {
    |path: Seq<char>| file_name(path) != program
}

/// Puts the alias files in the order in which they are taken in: by path, in
/// the dictionary order. A file that carries the program's own name is left
/// out.
pub fn order_files(program: &str, paths: &Vec<String>) -> (files: Vec<String>)
    ensures
        in_order(views_of(files@)),
        views_of(files@).to_multiset() == views_of(paths@).filter(
            is_candidate(program@),
        ).to_multiset(),
{
    let mut files: Vec<String> = Vec::new();
    let mut i: usize = 0;
    let ghost keep = is_candidate(program@);
    proof {
        assert(views_of(paths@).subrange(0, 0) =~= Seq::<Seq<char>>::empty());
        assert(views_of(files@) =~= Seq::<Seq<char>>::empty());
        assert(Seq::<Seq<char>>::empty().filter(keep) =~= Seq::<Seq<char>>::empty()) by {
            reveal(Seq::filter);
        }
    }
    while i < paths.len()
        invariant
            i <= paths.len(),
            keep == is_candidate(program@),
            in_order(views_of(files@)),
            views_of(files@).to_multiset() == views_of(paths@).subrange(0, i as int).filter(
                keep,
            ).to_multiset(),
        decreases paths.len() - i,
    {
        let path = paths[i].as_str();
        let name = file_name_of(path);
        proof {
            let seen = views_of(paths@).subrange(0, i as int);
            assert(views_of(paths@).subrange(0, i + 1) =~= seen.push(path@));
            seen.lemma_filter_push(path@, keep);
            to_multiset_build(seen.filter(keep), path@);
        }
        if !same_text(name.as_str(), program) {
            let key = chars_of(path);
            let mut at: usize = 0;
            while at < files.len()
                invariant
                    at <= files.len(),
                    key@ == path@,
                    forall|j: int| 0 <= j < at ==> !lex_less(path@, #[trigger] views_of(files@)[j]),
                ensures
                    at < files.len() ==> lex_less(path@, views_of(files@)[at as int]),
                decreases files.len() - at,
            {
                let here = chars_of(files[at].as_str());
                match rank(&key, &here) {
                    Rank::Before => {
                        break ;
                    },
                    Rank::Same => {
                        proof {
                            lemma_lex_irreflexive(path@);
                        }
                    },
                    Rank::After => {
                        proof {
                            if lex_less(path@, here@) {
                                lemma_lex_transitive(path@, here@, path@);
                                lemma_lex_irreflexive(path@);
                            }
                        }
                    },
                }
                at += 1;
            }
            let ghost before = views_of(files@);
            proof {
                to_multiset_insert(before, at as int, path@);
                let after = before.insert(at as int, path@);
                assert forall|a: int, b: int| 0 <= a < b < after.len() implies !lex_less(
                    #[trigger] after[b],
                    #[trigger] after[a],
                ) by {
                    if b == at {
                        if lex_less(path@, before[a]) {
                        }
                    } else if a == at {
                        assert(lex_less(path@, before[at as int]));
                        if b - 1 > at {
                            assert(!lex_less(before[b - 1], before[at as int]));
                        }
                        if lex_less(after[b], path@) {
                            lemma_lex_transitive(after[b], path@, before[at as int]);
                            lemma_lex_irreflexive(before[at as int]);
                        }
                    } else if a < at && b > at {
                        assert(after[a] == before[a] && after[b] == before[b - 1]);
                    } else if b < at {
                        assert(after[a] == before[a] && after[b] == before[b]);
                    } else {
                        assert(after[a] == before[a - 1] && after[b] == before[b - 1]);
                    }
                }
            }
            files.insert(at, String::from_str(path));
            proof {
                assert(views_of(files@) =~= before.insert(at as int, path@));
            }
        }
        i += 1;
    }
    proof {
        assert(views_of(paths@).subrange(0, i as int) =~= views_of(paths@));
    }
    files
}

} // verus!
