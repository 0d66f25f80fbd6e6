//! `grove update`: whether to replace this binary with the newest release, and
//! what to say about it.
use crate::text;
use vstd::prelude::*;
use vstd::string::StringExecFns;

verus! {

/// The installer, baked in rather than fetched: one implementation of getting a
/// release and putting it in place, versioned alongside the binary that runs it.
/// With `GROVE_CHECK` set it prints the latest release and does no more.
pub const INSTALLER: &'static str = "#!/bin/sh
set -eu

repo=https://github.com/saborrie/grove

latest() {
    git ls-remote --tags --refs --sort=-v:refname \"$repo\" |
        sed -n 's|.*refs/tags/\\([0-9][0-9]*\\.[0-9][0-9]*\\.[0-9][0-9]*\\)$|\\1|p' |
        head -n 1
}

main() {
    version=$(latest)
    if [ -z \"$version\" ]; then
        echo 'grove: no release found' >&2
        exit 1
    fi
    if [ -n \"${GROVE_CHECK:-}\" ]; then
        echo \"$version\"
        exit 0
    fi
    dir=${GROVE_INSTALL_DIR:-$HOME/.local/bin}
    work=$(mktemp -d)
    trap 'rm -rf \"$work\"' EXIT
    git clone --quiet --depth 1 --branch \"$version\" \"$repo\" \"$work/grove\"
    (cd \"$work/grove\" && GROVE_VERSION=$version cargo build --release)
    install -m755 \"$work/grove/target/release/grove\" \"$dir/.grove-update\"
    mv \"$dir/.grove-update\" \"$dir/grove\"
    echo \"grove $version is in $dir\"
}

main \"$@\"
";

/// What an update should do, given what is installed and what is released.
#[derive(Clone, Copy, PartialEq, Eq, Structural, Debug)]
pub enum Action {
    /// A build from a checkout has no release behind it, and replacing it with
    /// one would throw away whatever was being worked on.
    RefuseSourceBuild,
    AlreadyCurrent,
    Install,
}

/// A build from a checkout is left alone whatever is released; anything else is
/// replaced unless it is the latest release itself.
pub open spec fn decision(current: Seq<char>, latest: Seq<char>) -> Action {
    if current == "dev"@ {
        Action::RefuseSourceBuild
    } else if current == latest {
        Action::AlreadyCurrent
    } else {
        Action::Install
    }
}

pub fn decide(current: &str, latest: &str) -> (action: Action)
    ensures
        action == decision(current@, latest@),
{
    if text::same_text(current, "dev") {
        Action::RefuseSourceBuild
    } else if text::same_text(current, latest) {
        Action::AlreadyCurrent
    } else {
        Action::Install
    }
}

/// The newest released version, from what the installer printed when asked for
/// it, or why there is none.
pub open spec fn released(answer: Result<Seq<char>, Seq<char>>) -> Result<Seq<char>, Seq<char>> {
    match answer {
        Ok(output) => if text::trimmed(output).len() > 0 {
            Ok(text::trimmed(output))
        } else {
            Err("could not work out the latest version"@)
        },
        Err(why) => Err(why),
    }
}

/// What a string or a reason says.
pub open spec fn result_view(r: Result<String, String>) -> Result<Seq<char>, Seq<char>> {
    match r {
        Ok(s) => Ok(s@),
        Err(why) => Err(why@),
    }
}

/// The newest released version, straight from the installer so that there is
/// only one thing that knows how to work it out.
pub fn latest_release(answer: Result<String, String>) -> (latest: Result<String, String>)
    ensures
        result_view(latest) == released(result_view(answer)),
{
    match answer {
        Ok(output) => {
            let latest = text::trim(output.as_str());
            if latest.as_str().is_empty() {
                Err("could not work out the latest version".to_owned())
            } else {
                Ok(latest)
            }
        },
        Err(why) => Err(why),
    }
}

/// What is left to do once it is known what is released.
pub enum Step {
    /// Print these lines, and be done.
    Say(Vec<String>),
    /// Give up, for this reason.
    Fail(String),
    /// Install the release over the running binary.
    Install,
}

/// What a step says.
pub enum StepView {
    Say(Seq<Seq<char>>),
    Fail(Seq<char>),
    Install,
}

impl View for Step {
    type V = StepView;

    open spec fn view(&self) -> StepView {
        match *self {
            Step::Say(lines) => StepView::Say(text::texts(lines@)),
            Step::Fail(why) => StepView::Fail(why@),
            Step::Install => StepView::Install,
        }
    }
}

/// What a check prints: both versions, and how to get the newer one.
pub open spec fn check_lines(current: Seq<char>, latest: Seq<char>) -> Seq<Seq<char>> {
    let versions = seq!["installed: grove "@ + current, "latest:    grove "@ + latest];
    if decision(current, latest) == Action::Install {
        versions.push("\nrun `grove update` to install it"@)
    } else {
        versions
    }
}

/// Why a build from a checkout is not replaced.
pub open spec fn source_build_refusal(latest: Seq<char>) -> Seq<char> {
    "this is a build from a checkout, not a release — it reports no version, so there is nothing to compare against "@
        + latest
        + ".\nInstall the release over it deliberately if that is what you want:\n    curl -fsSL https://raw.githubusercontent.com/saborrie/grove/main/scripts/install.sh | sh"@
}

/// What comes of `grove update`, given what is installed, what the installer
/// answered when asked for the latest release, and whether to do no more than
/// look.
pub open spec fn outcome(
    current: Seq<char>,
    answer: Result<Seq<char>, Seq<char>>,
    check_only: bool,
) -> StepView {
    match released(answer) {
        Err(why) => StepView::Fail(why),
        Ok(latest) => if check_only {
            StepView::Say(check_lines(current, latest))
        } else {
            match decision(current, latest) {
                Action::RefuseSourceBuild => StepView::Fail(source_build_refusal(latest)),
                Action::AlreadyCurrent => StepView::Say(
                    seq!["grove "@ + current + " is the latest release"@],
                ),
                Action::Install => StepView::Install,
            }
        },
    }
}

/// What comes of `grove update`.
pub fn run(current: &str, answer: Result<String, String>, check_only: bool) -> (step: Step)
    ensures
        step@ == outcome(current@, result_view(answer), check_only),
{
    let latest = match latest_release(answer) {
        Ok(latest) => latest,
        Err(why) => {
            return Step::Fail(why);
        },
    };
    let action = decide(current, latest.as_str());
    let mut lines: Vec<String> = Vec::new();
    if check_only {
        lines.push("installed: grove ".to_owned().concat(current));
        lines.push("latest:    grove ".to_owned().concat(latest.as_str()));
        if action == Action::Install {
            lines.push("\nrun `grove update` to install it".to_owned());
        }
        assert(text::texts(lines@) =~= check_lines(current@, latest@));
        return Step::Say(lines);
    }
    match action {
        Action::RefuseSourceBuild => Step::Fail(
            "this is a build from a checkout, not a release — it reports no version, so there is nothing to compare against ".to_owned().concat(
            latest.as_str()).concat(
                ".\nInstall the release over it deliberately if that is what you want:\n    curl -fsSL https://raw.githubusercontent.com/saborrie/grove/main/scripts/install.sh | sh",
            ),
        ),
        Action::AlreadyCurrent => {
            lines.push("grove ".to_owned().concat(current).concat(" is the latest release"));
            assert(text::texts(lines@) =~= seq!["grove "@ + current@ + " is the latest release"@]);
            Step::Say(lines)
        },
        Action::Install => Step::Install,
    }
}

/// Why nothing can be installed into a directory, and what to do about it.
pub open spec fn unwritable(dir: Seq<char>) -> Seq<char> {
    "cannot write to "@ + dir + " — try:\n    sudo GROVE_INSTALL_DIR="@ + dir
        + " sh -c \"$(curl -fsSL https://raw.githubusercontent.com/saborrie/grove/main/scripts/install.sh)\""@
}

/// Whether to go on and install into `dir`. Replacing the binary means creating
/// a file next to it and renaming over it, so it is the directory that has to be
/// writable, not the file, and that is said before the download rather than
/// after it.
pub fn before_install(dir: &str, writable: bool) -> (go: Result<(), String>)
    ensures
        go is Ok == writable,
        go is Err ==> go->Err_0@ == unwritable(dir@),
{
    if writable {
        Ok(())
    } else {
        Err(
            "cannot write to ".to_owned().concat(dir).concat(
                " — try:\n    sudo GROVE_INSTALL_DIR=",
            ).concat(dir).concat(
                " sh -c \"$(curl -fsSL https://raw.githubusercontent.com/saborrie/grove/main/scripts/install.sh)\"",
            ),
        )
    }
}

/// A build from a checkout is never replaced, looking installs nothing, and what
/// is already the latest release is left alone.
pub proof fn nothing_is_replaced_unasked(
    current: Seq<char>,
    answer: Result<Seq<char>, Seq<char>>,
    check_only: bool,
)
    ensures
        outcome(current, answer, check_only) == StepView::Install ==> !check_only && current
            != "dev"@ && released(answer) is Ok && released(answer) != Ok::<
            Seq<char>,
            Seq<char>,
        >(current),
{
}

/// An update installs exactly where it is asked to, there is a release, and what is
/// installed is another release: no build from a checkout, and not the release
/// itself.
pub proof fn an_update_installs_any_other_release(
    current: Seq<char>,
    output: Seq<char>,
    check_only: bool,
)
    ensures
        outcome(current, Ok(output), check_only) is Install <==> !check_only && text::trimmed(
            output,
        ).len() > 0 && current != seq!['d', 'e', 'v'] && current != text::trimmed(output),
        text::trimmed(output).len() == 0 ==> outcome(current, Ok(output), check_only) is Fail,
{
    reveal_strlit("dev");
    assert("dev"@ =~= seq!['d', 'e', 'v']);
}

/// Why the latest release is not known is said as it was given, whatever is installed
/// and whether or not to install.
pub proof fn a_failed_question_is_passed_on(
    current: Seq<char>,
    why: Seq<char>,
    check_only: bool,
)
    ensures
        outcome(current, Err(why), check_only) == StepView::Fail(why),
        released(Err(why)) == Err::<Seq<char>, Seq<char>>(why),
{
}

/// A check never fails once the latest release is known, and says both versions; it
/// says how to update exactly where an update would install something.
pub proof fn a_check_says_both_versions(current: Seq<char>, output: Seq<char>)
    requires
        text::trimmed(output).len() > 0,
    ensures
        match outcome(current, Ok(output), true) {
            StepView::Say(lines) => {
                &&& 2 <= lines.len() <= 3
                &&& lines[0] == "installed: grove "@ + current
                &&& lines[1] == "latest:    grove "@ + text::trimmed(output)
                &&& lines.len() == 3 <==> outcome(current, Ok(output), false) is Install
                &&& lines.len() == 3 ==> lines[2] == "\nrun `grove update` to install it"@
            },
            _ => false,
        },
{
}

/// A build from a checkout is refused, and the latest release is told that it is the
/// latest.
pub proof fn an_update_says_why_it_does_nothing(current: Seq<char>, output: Seq<char>)
    requires
        text::trimmed(output).len() > 0,
    ensures
        current == seq!['d', 'e', 'v'] ==> outcome(current, Ok(output), false) is Fail,
        current != seq!['d', 'e', 'v'] && current == text::trimmed(output) ==> outcome(
            current,
            Ok(output),
            false,
        ) == StepView::Say(seq!["grove "@ + current + " is the latest release"@]),
{
    reveal_strlit("dev");
    assert("dev"@ =~= seq!['d', 'e', 'v']);
}

} // verus!
