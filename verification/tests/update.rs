//! Whether to replace the running binary.
use grove::update::{before_install, decide, latest_release, run, Action, Step, INSTALLER};

fn said(step: Step) -> Vec<String> {
    match step {
        Step::Say(lines) => lines,
        Step::Fail(why) => panic!("failed: {why}"),
        Step::Install => panic!("would install"),
    }
}

fn failed(step: Step) -> String {
    match step {
        Step::Fail(why) => why,
        Step::Say(lines) => panic!("said: {lines:?}"),
        Step::Install => panic!("would install"),
    }
}

#[test]
fn a_newer_release_is_installed() {
    assert_eq!(decide("0.3.0", "0.3.1"), Action::Install);
}

#[test]
fn the_same_version_is_left_alone() {
    // Re-downloading what you already have is only slow, not wrong, but
    // saying so is friendlier than two megabytes of nothing.
    assert_eq!(decide("0.3.1", "0.3.1"), Action::AlreadyCurrent);
}

#[test]
fn a_source_build_is_never_replaced_silently() {
    // `dev` is what a build from a checkout reports. Overwriting it with a
    // release would quietly throw away whatever was being worked on.
    assert_eq!(decide("dev", "0.3.1"), Action::RefuseSourceBuild);
    assert_eq!(decide("dev", "dev"), Action::RefuseSourceBuild);
}

#[test]
fn the_latest_release_is_what_the_installer_prints() {
    assert_eq!(latest_release(Ok(" 0.3.1\n".into())), Ok("0.3.1".to_string()));
    assert_eq!(
        latest_release(Ok(" \n".into())),
        Err("could not work out the latest version".to_string())
    );
    assert_eq!(
        latest_release(Err("the installer failed — see above".into())),
        Err("the installer failed — see above".to_string())
    );
}

#[test]
fn a_check_only_looks() {
    assert_eq!(
        said(run("0.3.0", Ok("0.3.1\n".into()), true)),
        vec![
            "installed: grove 0.3.0",
            "latest:    grove 0.3.1",
            "\nrun `grove update` to install it",
        ]
    );
    assert_eq!(said(run("0.3.1", Ok("0.3.1\n".into()), true)).len(), 2);
    assert_eq!(said(run("dev", Ok("0.3.1\n".into()), true)).len(), 2);
}

#[test]
fn an_update_installs_says_or_refuses() {
    assert!(matches!(run("0.3.0", Ok("0.3.1".into()), false), Step::Install));
    assert_eq!(
        said(run("0.3.1", Ok("0.3.1".into()), false)),
        vec!["grove 0.3.1 is the latest release"]
    );
    assert_eq!(
        failed(run("dev", Ok("0.3.1".into()), false)),
        "this is a build from a checkout, not a release — it reports no version, so there is \
         nothing to compare against 0.3.1.\nInstall the release over it deliberately if that is \
         what you want:\n    curl -fsSL \
         https://raw.githubusercontent.com/saborrie/grove/main/scripts/install.sh | sh"
    );
    assert_eq!(
        failed(run("0.3.1", Ok(String::new()), false)),
        "could not work out the latest version"
    );
    assert_eq!(failed(run("dev", Err("no network".into()), true)), "no network");
}

#[test]
fn a_directory_that_cannot_be_written_is_said_before_the_download() {
    assert_eq!(before_install("/usr/local/bin", true), Ok(()));
    assert_eq!(
        before_install("/usr/local/bin", false),
        Err(
            "cannot write to /usr/local/bin — try:\n    sudo GROVE_INSTALL_DIR=/usr/local/bin sh \
             -c \"$(curl -fsSL \
             https://raw.githubusercontent.com/saborrie/grove/main/scripts/install.sh)\""
                .to_string()
        )
    );
}

#[test]
fn the_installer_is_embedded_whole() {
    // Check this is the real script before shipping it to sh.
    assert!(INSTALLER.starts_with("#!/bin/sh"));
    assert!(
        INSTALLER.contains("GROVE_CHECK"),
        "check mode must be present"
    );
    assert!(
        INSTALLER.trim_end().ends_with(r#"main "$@""#),
        "the script must still run itself"
    );
}
