use lets::error::Error;
use lets::output::{Body, Format, Outcome, UpdateCheck};
use lets::update::{compare, next, Action, Asked, Event};
use lets::{guide, hook};

const CURRENT: &str = "1.4.0";

/// A release server in memory.
struct Server {
    latest: &'static str,
    newer: bool,
    refusal: bool,
    asked: usize,
    installed: bool,
}

fn server(latest: &'static str, newer: bool) -> Server {
    Server { latest, newer, refusal: false, asked: 0, installed: false }
}

fn asked(check_only: bool, force: bool) -> Asked {
    Asked { check_only, force, format: Format::Text }
}

fn update(server: &mut Server, asked: Asked) -> Outcome {
    let mut event = Event::Started;
    loop {
        event = match next(&asked, event) {
            Action::Locate => Event::Located(if server.refusal {
                Err(Error::InstallRefused { detail: "another lets is first on PATH".to_owned() })
            } else {
                Ok(())
            }),
            Action::Compare => {
                server.asked += 1;
                Event::Compared(if server.latest == "nightly" {
                    Err(Error::UpdateFailed { detail: "no version in nightly".to_owned() })
                } else {
                    Ok(compare(CURRENT.to_owned(), server.latest.to_owned(), server.newer))
                })
            },
            Action::Install => {
                server.asked += 1;
                server.installed = true;
                Event::Installed(Ok(()))
            },
            Action::Answer(outcome) => return outcome,
        };
    }
}

fn body_check(outcome: &Outcome) -> &UpdateCheck {
    match &outcome.response.body {
        Body::Update(check) => check,
        other => panic!("expected an update check body, got {other:?}"),
    }
}

#[test]
fn check_reports_current_when_the_latest_tag_is_this_version() {
    let mut server = server(CURRENT, false);

    let outcome = update(&mut server, asked(true, false));

    assert!(outcome.error.is_none(), "{:?}", outcome.error);
    let reported = body_check(&outcome);
    assert!(!reported.update_available);
    assert_eq!(reported.current, CURRENT);
    assert_eq!(reported.latest, CURRENT);
    assert_eq!(server.asked, 1);
}

#[test]
fn check_reports_update_available_with_both_versions_when_the_latest_is_newer() {
    let mut server = server("2.4.0", true);

    let outcome = update(&mut server, asked(true, false));

    match &outcome.error {
        Some(Error::UpdateAvailable { current, latest }) => {
            assert_eq!(current, CURRENT);
            assert_eq!(latest, "2.4.0");
        },
        other => panic!("expected update_available, got {other:?}"),
    }
    assert!(body_check(&outcome).update_available);
    assert!(!server.installed);
}

#[test]
fn update_when_already_current_checks_and_does_not_download() {
    let mut server = server(CURRENT, false);

    let outcome = update(&mut server, asked(false, false));

    assert!(outcome.error.is_none(), "{:?}", outcome.error);
    assert!(!body_check(&outcome).update_available);
    assert_eq!(server.asked, 1);
    assert!(!server.installed);
}

#[test]
fn update_when_the_running_build_is_newer_than_the_latest_does_not_downgrade() {
    let mut server = server("0.0.0", false);

    let outcome = update(&mut server, asked(false, false));

    assert!(outcome.error.is_none(), "{:?}", outcome.error);
    assert_eq!(body_check(&outcome).latest, "0.0.0");
    assert!(!server.installed);
}

#[test]
fn update_when_a_newer_release_exists_downloads_and_runs_the_installer() {
    let mut server = server("2.4.0", true);

    let outcome = update(&mut server, asked(false, false));

    assert!(outcome.error.is_none(), "{:?}", outcome.error);
    assert!(server.installed);
    assert_eq!(server.asked, 2);
    let Body::Raw { field, text } = &outcome.response.body else {
        panic!("expected a raw body");
    };
    assert_eq!((*field, text.as_str()), ("update", "replaced with the latest release\n"));
}

#[test]
fn force_skips_the_check_and_downloads_even_when_current() {
    let mut server = server(CURRENT, false);

    let outcome = update(&mut server, Asked { format: Format::Json, ..asked(false, true) });

    assert!(outcome.error.is_none(), "{:?}", outcome.error);
    assert!(server.installed);
    assert_eq!(server.asked, 1);
    let Body::Raw { text, .. } = &outcome.response.body else {
        panic!("expected a raw body");
    };
    assert_eq!(text, "done");
}

#[test]
fn a_different_lets_first_on_path_is_refused_before_any_network_call() {
    let mut server = server("2.4.0", true);
    server.refusal = true;

    let outcome = update(&mut server, asked(false, false));

    assert!(matches!(outcome.error, Some(Error::InstallRefused { .. })));
    assert_eq!(server.asked, 0);
}

#[test]
fn a_malformed_latest_tag_fails_the_update_without_downloading() {
    let mut server = server("nightly", false);

    let outcome = update(&mut server, asked(false, false));

    assert!(matches!(outcome.error, Some(Error::UpdateFailed { .. })));
    assert!(!server.installed);
}

#[test]
fn an_installer_that_fails_is_the_answer() {
    let failed = Error::UpdateFailed { detail: "curl exited 6".to_owned() };
    let Action::Answer(outcome) = next(&asked(false, true), Event::Installed(Err(failed))) else {
        panic!("expected an answer");
    };
    assert_eq!(outcome.error.expect("a failure").slug(), "update_failed");
}

#[test]
fn the_guide_is_printed_as_it_is() {
    let outcome = guide::run("# Guide\n".to_owned());
    assert!(outcome.error.is_none());
    let Body::Raw { field, text } = &outcome.response.body else {
        panic!("expected a raw body");
    };
    assert_eq!((*field, text.as_str()), ("guide", "# Guide\n"));
}

#[test]
fn a_verdict_that_renders_to_nothing_is_no_answer() {
    assert!(!hook::run(String::new()).response.has_output());
    let outcome = hook::run("blocked".to_owned());
    assert!(outcome.response.has_output());
    assert_eq!(outcome.response.verb, "hook");
}
