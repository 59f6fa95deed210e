//! What is put before the user when a conflict is theirs to decide: the two
//! sides of the difference, the question, and the answers on offer. Drawing
//! them on a terminal is the caller's part.

use crate::conflict::{choice_of, Choice, Conflict, ConflictType, ConflictView};
use crate::paint::{black_on_cyan, cyan, cyan_bold, green, magenta, red, shows};
use crate::text::{trim, trim_end, trim_start};
use vstd::prelude::*;

verus! {

/// A difference to show: what it is about, a label for each side, and the
/// value on each side.
#[derive(Debug, PartialEq, Eq)]
pub struct Diff {
    /// The name of the alias.
    pub subject: String,
    /// The label of the side that holds the current value.
    pub source_label: String,
    /// The label of the side that brings the incoming value.
    pub destination_label: String,
    /// The current value, shown as the line that goes.
    pub old_value: String,
    /// The incoming value, shown as the line that comes.
    pub new_value: String,
}

/// A `Diff` as a plain value.
pub struct DiffView {
    pub subject: Seq<char>,
    pub source_label: Seq<char>,
    pub destination_label: Seq<char>,
    pub old_value: Seq<char>,
    pub new_value: Seq<char>,
}

impl View for Diff {
    type V = DiffView;

    open spec fn view(&self) -> DiffView {
        DiffView {
            subject: self.subject@,
            source_label: self.source_label@,
            destination_label: self.destination_label@,
            old_value: self.old_value@,
            new_value: self.new_value@,
        }
    }
}

/// The label that stands for all alias files together.
pub const LOADER_SOURCES_LABEL: &'static str = "*** Alias loader sources ***";

/// The label that stands for the startup file.
pub const STARTUP_FILE_LABEL: &'static str = "*** .bashrc file ***";

/// The difference that a conflict shows. Between alias files the two sides
/// carry the general labels; at the final merge each side is labelled with
/// the path of its own source.
pub open spec fn diff_of(conflict: ConflictView) -> DiffView {
    DiffView {
        subject: conflict.name,
        source_label: match conflict.kind {
            ConflictType::CacheIncoming => LOADER_SOURCES_LABEL@,
            ConflictType::WriteNew => conflict.current.source.path(),
        },
        destination_label: match conflict.kind {
            ConflictType::CacheIncoming => STARTUP_FILE_LABEL@,
            ConflictType::WriteNew => conflict.incoming.source.path(),
        },
        old_value: conflict.current.value,
        new_value: conflict.incoming.value,
    }
}

/// Lays out the difference that `conflict` shows.
pub fn show_diff(conflict: &Conflict) -> (diff: Diff)
    ensures
        diff@ == diff_of(conflict@),
{
    let (source_label, destination_label) = match conflict.kind {
        ConflictType::CacheIncoming => (
            String::from_str(LOADER_SOURCES_LABEL),
            String::from_str(STARTUP_FILE_LABEL),
        ),
        ConflictType::WriteNew => (
            conflict.current.source.get_path(),
            conflict.incoming.source.get_path(),
        ),
    };
    Diff {
        subject: conflict.name.clone(),
        source_label,
        destination_label,
        old_value: conflict.current.value.clone(),
        new_value: conflict.incoming.value.clone(),
    }
}

/// The lines of a difference before they are coloured: a header line for
/// each side, the line that goes and the line that comes.
pub open spec fn diff_lines(diff: DiffView) -> (Seq<char>, Seq<char>, Seq<char>, Seq<char>) {
    (
        "--- "@ + diff.source_label,
        "+++ "@ + diff.destination_label,
        "-  "@ + diff.old_value,
        "+  "@ + diff.new_value,
    )
}

/// A difference as it is shown, made of its four lines.
pub open spec fn laid_out(
    source_line: Seq<char>,
    destination_line: Seq<char>,
    old_line: Seq<char>,
    new_line: Seq<char>,
) -> Seq<char> {
    source_line + "\n"@ + destination_line + "\n@@ -1 +1 @@\n "@ + old_line + "\n "@ + new_line
        + "\n"@
}

/// Lays four lines out as a difference: the two header lines, the line that
/// tells where the change is, and the two value lines.
pub fn lay_out_diff(
    source_line: &str,
    destination_line: &str,
    old_line: &str,
    new_line: &str,
) -> (text: String)
    ensures
        text@ == laid_out(source_line@, destination_line@, old_line@, new_line@),
{
    let mut text = String::from_str(source_line);
    text.append("\n");
    text.append(destination_line);
    text.append("\n@@ -1 +1 @@\n ");
    text.append(old_line);
    text.append("\n ");
    text.append(new_line);
    text.append("\n");
    text
}

/// The text of a difference, coloured: what goes is red, what comes is
/// green. Each of the four lines shows the line that `diff_lines` gives.
pub fn diff_text(diff: &Diff) -> (text: String)
    ensures
        exists|a: Seq<char>, b: Seq<char>, c: Seq<char>, d: Seq<char>|
            {
                &&& shows(a, diff_lines(diff@).0)
                &&& shows(b, diff_lines(diff@).1)
                &&& shows(c, diff_lines(diff@).2)
                &&& shows(d, diff_lines(diff@).3)
                &&& text@ == #[trigger] laid_out(a, b, c, d)
            },
{
    let mut source_line = String::from_str("--- ");
    source_line.append(diff.source_label.as_str());
    let mut destination_line = String::from_str("+++ ");
    destination_line.append(diff.destination_label.as_str());
    let mut old_line = String::from_str("-  ");
    old_line.append(diff.old_value.as_str());
    let mut new_line = String::from_str("+  ");
    new_line.append(diff.new_value.as_str());
    let a = red(source_line.as_str());
    let b = green(destination_line.as_str());
    let c = red(old_line.as_str());
    let d = green(new_line.as_str());
    lay_out_diff(a.as_str(), b.as_str(), c.as_str(), d.as_str())
}

/// The title over a difference, made of the name as it is shown.
pub fn title_text(painted_name: &str) -> (title: String)
    ensures
        title@ == "Alias: "@ + painted_name@,
{
    let mut title = String::from_str("Alias: ");
    title.append(painted_name);
    title
}

/// The title over a difference: `Alias:` and the name, in cyan.
pub fn diff_title(diff: &Diff) -> (title: String)
    ensures
        exists|name: Seq<char>| #[trigger]
            shows(name, diff.subject@) && title@ == "Alias: "@ + name,
{
    let name = cyan(diff.subject.as_str());
    title_text(name.as_str())
}

/// The word that announces a conflict, black on cyan.
pub fn conflict_banner() -> (banner: String)
    ensures
        shows(banner@, "Conflict!"@),
{
    black_on_cyan("Conflict!")
}

/// How the question begins, up to the name.
pub open spec fn question_lead(kind: ConflictType) -> Seq<char> {
    match kind {
        ConflictType::WriteNew => "Replace the contents of the new alias "@,
        ConflictType::CacheIncoming => "Replace the new alias "@,
    }
}

/// How the question goes on between the name and the incoming value.
pub open spec fn question_link(kind: ConflictType) -> Seq<char> {
    match kind {
        ConflictType::WriteNew => " with "@,
        ConflictType::CacheIncoming => " on your `.bashrc` file with with "@,
    }
}

/// The question put to the user for a conflict of the given kind, made of
/// the name and the incoming value as they are shown.
pub fn question_text(kind: ConflictType, painted_name: &str, painted_value: &str) -> (question:
    String)
    ensures
        question@ == question_lead(kind) + painted_name@ + question_link(kind) + painted_value@,
{
    let mut question = match kind {
        ConflictType::WriteNew => String::from_str("Replace the contents of the new alias "),
        ConflictType::CacheIncoming => String::from_str("Replace the new alias "),
    };
    question.append(painted_name);
    match kind {
        ConflictType::WriteNew => {
            question.append(" with ");
        },
        ConflictType::CacheIncoming => {
            question.append(" on your `.bashrc` file with with ");
        },
    }
    question.append(painted_value);
    question
}

/// The question put to the user about `conflict`: the name in bold cyan, the
/// incoming value in magenta.
pub fn question(conflict: &Conflict) -> (question: String)
    ensures
        exists|name: Seq<char>, value: Seq<char>|
            #![trigger shows(name, conflict@.name), shows(value, conflict@.incoming.value)]
            {
                &&& shows(name, conflict@.name)
                &&& shows(value, conflict@.incoming.value)
                &&& question@ == question_lead(conflict@.kind) + name + question_link(
                    conflict@.kind,
                ) + value
            },
{
    let name = cyan_bold(conflict.name.as_str());
    let value = magenta(conflict.incoming.value.as_str());
    assert(shows(name@, conflict@.name) && shows(value@, conflict@.incoming.value));
    question_text(conflict.kind, name.as_str(), value.as_str())
}

/// One answer on offer: the key that selects it, its label, and a sentence
/// that says what it does.
#[derive(Debug, PartialEq, Eq)]
pub struct PromptOption {
    pub key: String,
    pub label: String,
    pub description: String,
}

/// The four answers on offer, in the order in which they are listed. The key
/// of each is read back as the choice that it stands for.
pub fn prompt_options() -> (options: Vec<PromptOption>)
    ensures
        options@.len() == 4,
        options@[0].key@ == "y"@ && choice_of(options@[0].key@) == Choice::Overwrite,
        options@[1].key@ == "n"@ && choice_of(options@[1].key@) == Choice::Keep,
        options@[2].key@ == "i"@ && choice_of(options@[2].key@) == Choice::IgnoreAll,
        options@[3].key@ == "a"@ && choice_of(options@[3].key@) == Choice::AcceptAll,
        options@[0].label@ == "Yes"@,
        options@[1].label@ == "No"@,
        options@[2].label@ == "Ignore all"@,
        options@[3].label@ == "Accept all new"@,
        options@[0].description@ == "Overwrite the existing alias. Default."@,
        options@[1].description@ == "Keep the current the value."@,
        options@[2].description@ == "Ignore all future conflicts."@,
        options@[3].description@ == "Accept all new changes for subsequent conflicts."@,
{
    let mut options: Vec<PromptOption> = Vec::new();
    options.push(
        PromptOption {
            key: String::from_str("y"),
            label: String::from_str("Yes"),
            description: String::from_str("Overwrite the existing alias. Default."),
        },
    );
    options.push(
        PromptOption {
            key: String::from_str("n"),
            label: String::from_str("No"),
            description: String::from_str("Keep the current the value."),
        },
    );
    options.push(
        PromptOption {
            key: String::from_str("i"),
            label: String::from_str("Ignore all"),
            description: String::from_str("Ignore all future conflicts."),
        },
    );
    options.push(
        PromptOption {
            key: String::from_str("a"),
            label: String::from_str("Accept all new"),
            description: String::from_str("Accept all new changes for subsequent conflicts."),
        },
    );
    proof {
        reveal_strlit("y");
        reveal_strlit("n");
        reveal_strlit("i");
        reveal_strlit("a");
        lemma_trim_single("y"@);
        lemma_trim_single("n"@);
        lemma_trim_single("i"@);
        lemma_trim_single("a"@);
    }
    options
}

/// A single letter is its own trimmed form.
proof fn lemma_trim_single(s: Seq<char>)
    requires
        s.len() == 1,
        'A' <= s[0] <= 'z',
    ensures
        trim(s) == s,
{
    assert(trim_start(s) == s);
    assert(trim_end(s) == s);
}

} // verus!
