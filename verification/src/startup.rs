//! What the command line asks for, and what is written out on the way.

use vstd::prelude::*;

verus! {

/// The commands.
#[derive(Copy, Clone, Debug, PartialEq, Eq, Structural)]
pub enum SubCmd {
    /// Run the daemon.
    Run,
    /// Write out an example configuration.
    Generate,
}

/// The command to follow: the one that is given, or else to run.
pub fn command_or_run(cmd: Option<SubCmd>) -> (r: SubCmd)
    ensures
        r == (match cmd {
            Some(given) => given,
            None => SubCmd::Run,
        }),
{
    match cmd {
        Some(given) => given,
        None => SubCmd::Run,
    }
}

/// The texts of lines.
pub open spec fn texts(lines: Seq<String>) -> Seq<Seq<char>> {
    Seq::new(lines.len(), |i: int| lines[i]@)
}

/// The lines that list places which were searched.
pub open spec fn searched(paths: Seq<String>) -> Seq<Seq<char>> {
    Seq::new(paths.len(), |i: int| "- "@ + paths[i]@)
}

/// What a user is told who has no configuration: that there is none, where it
/// was looked for, and how to make one.
pub open spec fn missing_config_texts(main_path: Seq<char>, others: Seq<String>) -> Seq<Seq<char>> {
    seq![
        "Error: no configuration file found, and no path specified"@,
        "FYI: searched the following locations without success:"@,
        "- "@ + main_path,
    ] + searched(others) + seq![
        "FYI: you can generate an example by running: ambientwalrus generate"@,
        "FYI: e.g. ambientwalrus generate > "@ + main_path,
    ]
}

/// A user without a configuration is told of each place that was searched, the
/// main one first and the others in their order, between what is wrong and what
/// to do about it.
pub proof fn missing_config_is_told_in_order(main_path: Seq<char>, others: Seq<String>)
    ensures
        ({
            let told = missing_config_texts(main_path, others);
            let n = others.len() as int;
            &&& told.len() == n + 5
            &&& told[0] == "Error: no configuration file found, and no path specified"@
            &&& told[1] == "FYI: searched the following locations without success:"@
            &&& told[2] == "- "@ + main_path
            &&& forall|i: int| 0 <= i < n ==> #[trigger] told[i + 3] == "- "@ + others[i]@
            &&& told[n + 3]
                == "FYI: you can generate an example by running: ambientwalrus generate"@
            &&& told[n + 4] == "FYI: e.g. ambientwalrus generate > "@ + main_path
        }),
{
}

/// One text behind another.
fn joined(first: &str, second: &str) -> (r: String)
    ensures
        r@ == first@ + second@,
{
    let mut r: String = first.to_owned();
    r.append(second);
    r
}

/// The lines for a user who has no configuration in the main place or in the
/// others.
pub fn missing_config_lines(main_path: &str, others: &Vec<String>) -> (r: Vec<String>)
    ensures
        texts(r@) == missing_config_texts(main_path@, others@),
        r@.len() == others@.len() + 5,
        r@[0]@ == "Error: no configuration file found, and no path specified"@,
        r@[1]@ == "FYI: searched the following locations without success:"@,
        r@[2]@ == "- "@ + main_path@,
        forall|i: int|
            0 <= i < others@.len() ==> (#[trigger] r@[i + 3])@ == "- "@ + others@[i]@,
        r@[r@.len() - 2]@
            == "FYI: you can generate an example by running: ambientwalrus generate"@,
        r@[r@.len() - 1]@ == "FYI: e.g. ambientwalrus generate > "@ + main_path@,
{
    let mut lines: Vec<String> = Vec::new();
    lines.push("Error: no configuration file found, and no path specified".to_owned());
    lines.push("FYI: searched the following locations without success:".to_owned());
    lines.push(joined("- ", main_path));
    let ghost head = seq![
        "Error: no configuration file found, and no path specified"@,
        "FYI: searched the following locations without success:"@,
        "- "@ + main_path@,
    ];
    let mut i: usize = 0;
    while i < others.len()
        invariant
            i <= others@.len(),
            texts(lines@) =~= head + searched(others@.take(i as int)),
        decreases others@.len() - i,
    {
        let ghost before = lines@;
        lines.push(joined("- ", others[i].as_str()));
        proof {
            assert(texts(lines@) =~= texts(before).push(lines@.last()@));
            assert(searched(others@.take(i + 1)) =~= searched(others@.take(i as int)).push(
                "- "@ + others@[i as int]@,
            ));
        }
        i = i + 1;
    }
    proof {
        assert(others@.take(i as int) =~= others@);
    }
    let ghost middle = lines@;
    lines.push("FYI: you can generate an example by running: ambientwalrus generate".to_owned());
    lines.push(joined("FYI: e.g. ambientwalrus generate > ", main_path));
    proof {
        let n = middle.len() as int;
        assert(texts(lines@) =~= texts(middle).push(lines@[n]@).push(lines@[n + 1]@));
        assert(texts(lines@) =~= missing_config_texts(main_path@, others@));
        missing_config_is_told_in_order(main_path@, others@);
        assert(texts(lines@).len() == lines@.len());
        assert forall|i: int| 0 <= i < lines@.len() implies (#[trigger] lines@[i])@
            == missing_config_texts(main_path@, others@)[i] by {
            assert(texts(lines@)[i] == lines@[i]@);
        }
    }
    lines
}

/// The error that ends a run without a configuration.
pub fn missing_config_error() -> (r: String)
    ensures
        r@ == "ensure config is present/readable or override with -f/--config-file"@,
{
    "ensure config is present/readable or override with -f/--config-file".to_owned()
}

/// The lines of an example configuration, whose own text is given.
pub fn example_lines(text: &str) -> (r: Vec<String>)
    ensures
        texts(r@) == seq!["# Example config generated by `ambientwalrus generate`"@, text@],
        r@.len() == 2,
        r@[0]@ == "# Example config generated by `ambientwalrus generate`"@,
        r@[1]@ == text@,
{
    let mut lines: Vec<String> = Vec::new();
    lines.push("# Example config generated by `ambientwalrus generate`".to_owned());
    lines.push(text.to_owned());
    assert(texts(lines@) =~= seq![
        "# Example config generated by `ambientwalrus generate`"@,
        text@,
    ]);
    lines
}

} // verus!
