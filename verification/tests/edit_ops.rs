use lets::edit::apply::{edited_start, no_grammar_reason, Checked, Group, Layer1, Plan};
use lets::edit::args::{EditArgs, Stdin};
use lets::edit::bound::bound_output;
use lets::edit::bytes::Span;
use lets::edit::check::{literal_checker, place, settle_all, Checker, CommandVerdict};
use lets::edit::drive;
use lets::edit::insert::respelled;
use lets::edit::replace::{Fold, Found, Located};
use lets::edit::report::{merge_omissions, Reverted};
use lets::edit::run;
use lets::edit::spec::{EditOp, EditSpec, Kind, Lookup, SymbolMatch};
use lets::edit::trial::{Read, Trial};
use lets::error::{Candidate, Error, UnsupportedReason};
use lets::output::{
    AnchorSide, Body, EditKind, EditResult, Line, Marker, Omission, Outcome, Region, Sha12, ShaPair,
};

const USAGE: &str = "export function usage(id: string) {\n  const now = Date.now()\n  const \
                     cap = 10\n  if (n > cap) return\n  return total\n}\n";

/// One file in memory, and what the outside makes of an edit of it.
struct Disk {
    files: Vec<(&'static str, Vec<u8>)>,
    check: fn(&[u8]) -> Checked,
    /// What the checker says after the writing, where one is asked for.
    verdict: Option<CommandVerdict>,
    /// The files that cannot be put back.
    stuck: Vec<&'static str>,
    fold: Vec<(char, char)>,
}

fn sound(_after: &[u8]) -> Checked {
    layer1(true, "ok")
}

fn layer1(ok: bool, status: &str) -> Checked {
    Checked::Parsed(Layer1 {
        label: "structure".to_owned(),
        ok,
        status: status.to_owned(),
        errors_before: 0,
        errors_after: usize::from(!ok),
    })
}

fn disk(files: &[(&'static str, &str)]) -> Disk {
    Disk {
        files: files.iter().map(|(path, text)| (*path, text.as_bytes().to_vec())).collect(),
        check: sound,
        verdict: None,
        stuck: Vec::new(),
        fold: Vec::new(),
    }
}

fn key(path: &str) -> String {
    path.trim_start_matches("./").to_owned()
}

/// The first digits of a made-up hash, the same for the same bytes.
fn sha(bytes: &[u8]) -> Sha12 {
    let sum = bytes.iter().fold(7u64, |sum, byte| {
        sum.wrapping_mul(1_099_511_628_211).wrapping_add(u64::from(*byte))
    });
    Sha12 { hex: format!("{:012x}", sum & 0xffff_ffff_ffff) }
}

fn edit_args(target: &str) -> EditArgs {
    EditArgs {
        target: Some(target.to_owned()),
        more_targets: Vec::new(),
        old: None,
        new: None,
        all: false,
        expect: None,
        expect_all: false,
        insert_after: None,
        insert_before: None,
        from: None,
        if_sha: None,
        normalize: false,
        literal_newlines: false,
        check: None,
        check_timeout: 60,
    }
}

fn replacing(target: &str, old: &str, new: &str) -> EditArgs {
    let mut args = edit_args(target);
    args.old = Some(old.to_owned());
    args.new = Some(new.to_owned());
    args
}

fn file_and_kind(raw: &str) -> (String, Kind) {
    match raw.rsplit_once(':') {
        Some((file, lines)) => match lines.split_once('-') {
            Some((a, b)) => (
                file.to_owned(),
                Kind::Range(a.parse().expect("a line"), b.parse().expect("a line")),
            ),
            None => (file.to_owned(), Kind::Line(lines.parse().expect("a line"))),
        },
        None => (raw.to_owned(), Kind::Whole),
    }
}

fn line_of(hay: &[u8], at: usize) -> usize {
    1 + hay[..at].iter().filter(|byte| **byte == b'\n').count()
}

fn line_text(hay: &[u8], line: usize) -> String {
    String::from_utf8_lossy(hay).lines().nth(line - 1).unwrap_or("").to_owned()
}

/// An anchor's kind and what it finds: a pattern behind `@`, a definition behind `#`.
fn anchored(anchor: &str, content: &[u8]) -> (Kind, Lookup) {
    let text = String::from_utf8_lossy(content).into_owned();
    let text = text.trim_start_matches('\u{feff}');
    if let Some(name) = anchor.strip_prefix('#') {
        let line = text.lines().position(|line| line.contains(&format!("function {name}(")));
        let found = line
            .map(|at| SymbolMatch {
                line: at + 1,
                end_line: at + 1,
                start: 0,
                end: content.len(),
                end_guessed: false,
                text: line_text(content, at + 1),
            })
            .into_iter()
            .collect();
        return (Kind::Symbol(vec![name.to_owned()]), Lookup::Symbols { found, hint: None });
    }
    let pattern = anchor.trim_start_matches('@').trim_matches('\'').to_owned();
    let regex = regex::Regex::new(&pattern).expect("the anchors compile");
    let line = text.lines().position(|line| regex.is_match(line));
    (
        Kind::Regex { pattern, occurrence: 1 },
        line.map_or(Lookup::NoLine, |at| Lookup::Line(at + 1)),
    )
}

impl Disk {
    fn read(&self, path: &str) -> &[u8] {
        let at = key(path);
        &self.files.iter().find(|(name, _)| *name == at).expect("the file is there").1
    }

    fn text(&self, path: &str) -> String {
        String::from_utf8(self.read(path).to_vec()).expect("the fixtures are UTF-8")
    }

    fn write(&mut self, path: &str, content: Vec<u8>) {
        let at = key(path);
        let file = self.files.iter_mut().find(|(name, _)| *name == at).expect("the file is there");
        file.1 = content;
    }

    fn folded(&self, c: char) -> char {
        self.fold.iter().find(|(from, _)| *from == c).map_or(c, |(_, to)| *to)
    }

    fn search(&self, path: &str, hay: &[u8], needle: &[u8], all: bool, normalize: bool) -> Found {
        let mut found = Vec::new();
        let mut at = 0;
        while at + needle.len() <= hay.len() {
            if !needle.is_empty() && hay[at..].starts_with(needle) {
                found.push(Located {
                    span: Span { start: at, end: at + needle.len() },
                    normalized: false,
                });
                at += needle.len();
            } else {
                at += 1;
            }
        }
        if found.is_empty() {
            let text = String::from_utf8_lossy(hay).into_owned();
            let folded: Vec<(usize, char)> =
                text.char_indices().map(|(at, c)| (at, self.folded(c))).collect();
            let wanted: Vec<char> = String::from_utf8_lossy(needle).chars().collect();
            let place = (0..folded.len()).find(|start| {
                wanted.iter().enumerate().all(|(n, c)| {
                    folded.get(start + n).is_some_and(|(_, had)| had == c)
                })
            });
            let span = place.map(|start| Span {
                start: folded[start].0,
                end: folded.get(start + wanted.len()).map_or(text.len(), |(at, _)| *at),
            });
            if let (Some(span), true) = (&span, normalize) {
                return Found::Unique(Located {
                    span: Span { start: span.start, end: span.end },
                    normalized: true,
                });
            }
            let word = String::from_utf8_lossy(needle);
            let word = word.trim().split(' ').next().unwrap_or("").to_owned();
            let nearest = text.lines().position(|line| line.trim_start().starts_with(&word));
            return Found::NotFound {
                nearest: nearest.map(|at| Candidate {
                    path: path.to_owned(),
                    line: at + 1,
                    text: line_text(hay, at + 1),
                }),
                normalized_hint: span,
            };
        }
        match found.len() {
            1 => Found::Unique(found.remove(0)),
            _ if all => Found::All(found),
            _ => Found::Ambiguous(
                found
                    .iter()
                    .map(|one| Candidate {
                        path: path.to_owned(),
                        line: line_of(hay, one.span.start),
                        text: line_text(hay, line_of(hay, one.span.start)),
                    })
                    .collect(),
            ),
        }
    }

    /// The bytes on the disk, under the hash that the edit names, where it names one.
    fn on_disk(&self, spec: &EditSpec, path: &str) -> Read {
        let bytes = self.read(path).to_vec();
        let actual = sha(&bytes);
        match &spec.if_sha {
            Some(wanted) if actual.hex != wanted.hex => Err(Error::Changed {
                path: path.to_owned(),
                expected: wanted.hex.clone(),
                actual: actual.hex,
            }),
            _ => Ok((bytes, actual)),
        }
    }

    fn edit(
        &self,
        spec: &EditSpec,
        mut trial: Trial,
        omitted: &mut Vec<Omission>,
        stash: &mut Option<EditResult>,
    ) -> Result<Trial, Error> {
        let path = trial.path.clone();
        let read = trial.reads(spec).then(|| self.on_disk(spec, &path));
        trial.start(spec, read, None)?;
        let (kind, lookup) = match &spec.op {
            EditOp::Insert { anchor, .. } => anchored(anchor, &trial.before),
            _ => (file_and_kind(&spec.raw).1, Lookup::Unasked),
        };
        if let Some((scope, needle)) = trial.prepare(spec, &path, &kind, &lookup)? {
            let all = matches!(spec.op, EditOp::Replace { all: true, .. });
            let hay = &trial.before[scope.start..scope.end];
            let found = self.search(&path, hay, &needle, all, spec.normalize);
            trial.conclude(spec, found, &Fold { pairs: self.fold.clone() })?;
        }
        let (checked, is) = {
            let applied = trial.made().expect("the edit is made");
            assert!(edited_start(applied) <= trial.before.len());
            ((self.check)(&applied.after), sha(&applied.after))
        };
        trial.tried(&checked, is, omitted, stash)
    }

    fn validate(
        &self,
        specs: &[EditSpec],
        group: &Group,
        omitted: &mut Vec<Omission>,
        stash: &mut Option<EditResult>,
    ) -> Result<Plan, Error> {
        let mut trial = Trial::new(group.file.clone());
        while let Some(member) = trial.next(group) {
            trial = self.edit(&specs[member], trial, omitted, stash)?;
        }
        trial.planned()
    }

    fn run(&mut self, args: &EditArgs) -> Outcome {
        let mut typed = vec![args.target.clone().unwrap_or_default()];
        typed.extend(args.more_targets.iter().cloned());
        let keys = typed.iter().map(|raw| key(raw)).collect();
        match run(args, &keys, &Stdin::Bytes(Vec::new())) {
            Ok(specs) => self.apply(&specs, args.check.clone()),
            Err(outcome) => outcome,
        }
    }

    fn apply(&mut self, specs: &[EditSpec], check: Option<String>) -> Outcome {
        let files: Vec<String> = specs.iter().map(|spec| file_and_kind(&spec.raw).0).collect();
        let mut batch = drive::Batch {
            total: specs.len(),
            check,
            max_bytes: 65_536,
            omitted: Vec::new(),
            plans: Vec::new(),
            checkers: Vec::new(),
            landed: Vec::new(),
            failure: None,
        };
        let mut event = drive::Event::Started;
        loop {
            event = match drive::apply(&mut batch, &files, event) {
                drive::Action::Guard => {
                    drive::Event::Guarded(Ok(files.iter().map(|file| key(file)).collect()))
                },
                drive::Action::Validate(groups) => {
                    let several = groups.len() > 1;
                    let mut plans = Vec::new();
                    let mut errors = Vec::new();
                    let mut failures = Vec::new();
                    let mut stash = None;
                    for group in &groups {
                        let mut own = Vec::new();
                        match self.validate(specs, group, &mut own, &mut stash) {
                            Ok(plan) => plans.push(plan),
                            Err(error) => {
                                errors.push(error);
                                failures.push(group.file.clone());
                            },
                        }
                        merge_omissions(&mut batch.omitted, own, &group.file, several);
                    }
                    drive::Event::Validated(if errors.is_empty() {
                        Ok(plans)
                    } else {
                        Err(drive::Refusal { errors, failures, stash, header: 0 })
                    })
                },
                drive::Action::Resolve(value) => {
                    drive::Event::Resolved(Ok(literal_checker(&value)))
                },
                drive::Action::Baseline => drive::Event::Baselined,
                drive::Action::Write => {
                    for plan in &batch.plans {
                        self.write(&plan.path, plan.after.clone());
                    }
                    let landed = batch.plans.iter().map(|plan| plan.path.clone()).collect();
                    drive::Event::Written(Ok(landed))
                },
                drive::Action::Settle => {
                    let results: usize = batch.plans.iter().map(|plan| plan.detail.len()).sum();
                    drive::Event::Settled {
                        verdicts: self.verdict.take().into_iter().collect(),
                        headers: vec![0; results],
                    }
                },
                drive::Action::Restore => {
                    let mut restored = Vec::new();
                    let mut not_restored = Vec::new();
                    for plan in &batch.plans {
                        if self.stuck.contains(&plan.path.as_str()) {
                            not_restored
                                .push((plan.path.clone(), "permission denied".to_owned()));
                        } else {
                            self.write(&plan.path, plan.before.clone());
                            restored.push(plan.path.clone());
                        }
                    }
                    drive::Event::Restored(Reverted { restored, not_restored })
                },
                drive::Action::Answer(outcome) => return outcome,
            };
        }
    }
}

fn results(outcome: &Outcome) -> &[EditResult] {
    match &outcome.response.body {
        Body::Edit(results) => results,
        other => panic!("expected Body::Edit, got {other:?}"),
    }
}

fn error_of(outcome: Outcome) -> Error {
    outcome.error.expect("this case fails")
}

fn shown(result: &EditResult) -> Vec<(usize, Marker, &str)> {
    result
        .region
        .as_ref()
        .expect("the edit has a region")
        .lines
        .iter()
        .map(|line| (line.number, line.marker, line.text.as_str()))
        .collect()
}

#[test]
fn unique_old_replaces_it_and_reports_one_exact_match() {
    let mut disk = disk(&[("usage.ts", USAGE)]);

    let outcome = disk.run(&replacing("usage.ts", "const cap = 10", "const cap = 20"));

    assert!(outcome.error.is_none(), "a unique match applies");
    assert_eq!(disk.text("usage.ts"), USAGE.replace("cap = 10", "cap = 20"));
    let [result] = results(&outcome) else {
        panic!("one edit, one result");
    };
    assert!(matches!(result.kind, EditKind::Replaced { count: 1 }));
    assert_eq!(result.lines, [3]);
    assert_eq!(result.match_kind, "exact");
    assert!(shown(result).contains(&(3, Marker::Replaced, "  const cap = 20")));
    assert!(shown(result).iter().any(|line| line.2 == "  const now = Date.now()"));
    let check = result.check.as_ref().expect("the structure was checked");
    assert_eq!((check.layer.as_str(), check.status.as_str()), ("structure", "ok"));
}

#[test]
fn old_that_is_not_there_names_the_nearest_line_and_writes_nothing() {
    let mut disk = disk(&[("usage.ts", USAGE)]);
    let lines = USAGE.replace("  const now = Date.now()\n", "  let now = Date.now()\n");
    disk.files[0].1 = lines.clone().into_bytes();

    let error = error_of(disk.run(&replacing("usage.ts", "const cap = 15", "const cap = 20")));

    assert_eq!(disk.text("usage.ts"), lines);
    assert_eq!(error.slug(), "not_found");
    assert!(error.text().contains("nearest: line 3"), "{}", error.text());
}

#[test]
fn old_indented_two_spaces_too_far_names_the_line_and_both_indents() {
    let before = "function greet() {\n        console.warn('hi')\n}\n";
    let mut disk = disk(&[("greet.js", before)]);

    let error = error_of(disk.run(&replacing(
        "greet.js",
        "          console.warn('hi')",
        "          console.warn('bye')",
    )));

    assert_eq!(disk.text("greet.js"), before);
    assert_eq!(error.slug(), "not_found");
    assert!(
        error.text().contains(
            "matches line 2 except leading whitespace: the file indents it 8 \
             spaces, --old has 10"
        ),
        "{}",
        error.text()
    );
}

#[test]
fn multiline_old_indented_too_far_names_every_line() {
    let mut disk = disk(&[("config.yaml", "top:\n    a: 1\n    b: 2\n")]);

    let error = error_of(disk.run(&replacing(
        "config.yaml",
        "      a: 1\n      b: 2",
        "      a: 9\n      b: 9",
    )));

    assert_eq!(disk.text("config.yaml"), "top:\n    a: 1\n    b: 2\n");
    assert!(
        error.text().contains(
            "matches lines 2-3 except leading whitespace: line 2 the file indents it 4 \
             spaces, --old has 6; line 3 the file indents it 4 spaces, --old has 6"
        ),
        "{}",
        error.text()
    );
}

#[test]
fn multiline_old_with_only_the_first_line_fixed_names_the_lines_still_off() {
    let mut disk = disk(&[("config.yaml", "top:\n  a: 1\n    b: 2\n    c: 3\n")]);

    let error = error_of(disk.run(&replacing(
        "config.yaml",
        "  a: 1\n      b: 2\n      c: 3",
        "  a: 9\n      b: 9\n      c: 9",
    )));

    let text = error.text();
    assert!(
        text.contains(
            "matches lines 2-4 except leading whitespace: line 3 the file indents it 4 \
             spaces, --old has 6; line 4 the file indents it 4 spaces, --old has 6"
        ),
        "{text}"
    );
    assert!(
        !text.contains("line 2 the file indents"),
        "line 2 already matched and must not be named: {text}"
    );
}

#[test]
fn a_block_wider_than_the_cap_tallies_the_rest_as_plus_n_more() {
    let file_lines: String = (0..7).map(|n| format!("    item{n}: {n}\n")).collect();
    let mut disk = disk(&[("config.yaml", &format!("top:\n{file_lines}"))]);
    let old: String =
        (0..7).map(|n| format!("      item{n}: {n}")).collect::<Vec<_>>().join("\n");
    let new = old.replace("item", "changed");

    let error = error_of(disk.run(&replacing("config.yaml", &old, &new)));

    assert_eq!(disk.text("config.yaml"), format!("top:\n{file_lines}"));
    let rendered = error.text();
    assert!(
        rendered.contains("matches lines 2-8 except leading whitespace"),
        "{rendered}"
    );
    for line in 2..=6 {
        assert!(
            rendered.contains(&format!(
                "line {line} the file indents it 4 spaces, --old has 6"
            )),
            "line {line} should be named: {rendered}"
        );
    }
    assert!(
        !rendered.contains("line 7 the file indents")
            && !rendered.contains("line 8 the file indents"),
        "lines past the cap are tallied, not named: {rendered}"
    );
    assert!(rendered.contains("(+2 more)"), "{rendered}");
}

#[test]
fn old_indented_with_spaces_against_a_tab_names_both_kinds() {
    let mut disk = disk(&[("job.mk", "build:\n\techo hi\n")]);

    let error = error_of(disk.run(&replacing("job.mk", "  echo hi", "  echo bye")));

    assert_eq!(disk.text("job.mk"), "build:\n\techo hi\n");
    assert!(
        error.text().contains(
            "matches line 2 except leading whitespace: the file indents it 1 tab, \
             --old has 2 spaces"
        ),
        "{}",
        error.text()
    );
}

#[test]
fn a_miss_that_differs_beyond_whitespace_has_no_indent_hint() {
    let mut disk = disk(&[("greet.js", "function greet() {\n        console.warn('hi')\n}\n")]);

    let error = error_of(disk.run(&replacing("greet.js", "          console.warn('bye')", "x")));

    assert!(
        !error.text().contains("except leading whitespace"),
        "{}",
        error.text()
    );
}

#[test]
fn matching_indentation_applies_cleanly_with_no_indent_hint() {
    let mut disk = disk(&[("greet.js", "function greet() {\n        console.warn('hi')\n}\n")]);

    let outcome = disk.run(&replacing(
        "greet.js",
        "        console.warn('hi')",
        "        console.warn('bye')",
    ));

    assert!(outcome.error.is_none());
    assert_eq!(
        disk.text("greet.js"),
        "function greet() {\n        console.warn('bye')\n}\n"
    );
}

fn notes() -> Disk {
    let mut disk = disk(&[(
        "notes.md",
        "# notes\n\nIn that case the agent \u{2013} not the user \u{2013} decides.\n",
    )]);
    disk.fold.push(('\u{2013}', '-'));
    disk
}

#[test]
fn exact_miss_with_a_folded_match_names_the_line_and_the_flag() {
    let mut disk = notes();

    let error = error_of(disk.run(&replacing(
        "notes.md",
        "the agent - not the user - decides",
        "the agent decides",
    )));

    assert!(!disk.text("notes.md").contains("the agent decides"));
    assert!(
        error.text().contains("a normalized match exists at line 3 \u{2014} pass --normalize"),
        "{}",
        error.text()
    );
}

#[test]
fn normalize_replaces_the_folded_span_and_names_it() {
    let mut disk = notes();
    let mut args =
        replacing("notes.md", "the agent - not the user - decides", "the agent decides");
    args.normalize = true;

    let outcome = disk.run(&args);

    assert!(outcome.error.is_none(), "{:?}", outcome.error);
    assert_eq!(disk.text("notes.md"), "# notes\n\nIn that case the agent decides.\n");
    assert!(
        results(&outcome)[0].match_kind.contains("normalized (\u{2013} \u{2192} -)"),
        "{:?}",
        results(&outcome)[0].match_kind
    );
    assert!(outcome.response.omitted.iter().any(|note| matches!(note, Omission::Normalized)));
}

#[test]
fn old_that_matches_twice_without_all_lists_both_and_writes_nothing() {
    let mut disk = disk(&[("usage.ts", USAGE)]);

    let error = error_of(disk.run(&replacing("usage.ts", "return", "return undefined")));

    assert_eq!(disk.text("usage.ts"), USAGE);
    assert_eq!(error.slug(), "ambiguous");
    let message = error.text();
    assert!(message.contains("usage.ts:4"), "{message}");
    assert!(message.contains("usage.ts:5"), "{message}");
}

#[test]
fn all_replaces_every_occurrence_and_counts_them() {
    let mut disk = disk(&[(
        "usage.ts",
        "import { usageCap } from './config'\n\nconst a = usageCap\nconst b = usageCap\n",
    )]);
    let mut args = replacing("usage.ts", "usageCap", "usageLimit");
    args.all = true;

    let outcome = disk.run(&args);

    assert!(outcome.error.is_none());
    assert_eq!(disk.text("usage.ts").matches("usageLimit").count(), 3);
    assert!(!disk.text("usage.ts").contains("usageCap"));
    let [result] = results(&outcome) else {
        panic!("one edit, one result");
    };
    assert!(matches!(result.kind, EditKind::Replaced { count: 3 }));
    assert_eq!(result.lines, [1, 3, 4]);
}

#[test]
fn expect_that_matches_the_line_replaces_the_range() {
    let mut disk = disk(&[("usage.ts", USAGE)]);
    let mut args = edit_args("usage.ts:3");
    args.expect = Some("const cap = 10".to_owned());
    args.new = Some("  const cap = 20".to_owned());

    let outcome = disk.run(&args);

    assert!(outcome.error.is_none(), "{:?}", outcome.error);
    assert_eq!(
        disk.text("usage.ts"),
        USAGE.replace("  const cap = 10", "  const cap = 20")
    );
    assert!(results(&outcome)[0].match_kind.contains("expect matched"), "{outcome:?}");
}

#[test]
fn expect_that_does_not_match_exits_2_and_shows_the_line() {
    let mut disk = disk(&[("usage.ts", USAGE)]);
    let mut args = edit_args("usage.ts:3");
    args.expect = Some("const cap = 99".to_owned());
    args.new = Some("  const cap = 20".to_owned());

    let error = error_of(disk.run(&args));

    assert_eq!(disk.text("usage.ts"), USAGE);
    assert_eq!(error.slug(), "expect_refused");
    let message = error.text();
    assert!(message.contains("it reads:   const cap = 10"), "{message}");
    assert!(
        message.contains("--expect-all") && message.contains("--if sha:"),
        "{message}"
    );
}

#[test]
fn multi_line_range_with_expect_alone_is_refused_before_the_write() {
    let mut disk = disk(&[("usage.ts", USAGE)]);
    let mut args = edit_args("usage.ts:3-4");
    args.expect = Some("const cap = 10".to_owned());
    args.new = Some("  const cap = 20".to_owned());

    let error = error_of(disk.run(&args));

    assert_eq!(disk.text("usage.ts"), USAGE);
    assert_eq!(error.slug(), "expect_refused");
    let message = error.text();
    assert!(
        message.contains("line 3 only") && message.contains("runs to line 4"),
        "{message}"
    );
    assert!(
        message.contains("--expect-all") && message.contains("--if sha:"),
        "{message}"
    );
}

#[test]
fn multi_line_range_with_expect_and_if_sha_applies() {
    let mut disk = disk(&[("usage.ts", USAGE)]);
    let mut args = edit_args("usage.ts:3-4");
    args.expect = Some("const cap = 10".to_owned());
    args.new = Some("  const cap = 20\n  if (n > cap) throw new CapError()".to_owned());
    args.if_sha = Some(format!("sha:{}", sha(USAGE.as_bytes()).hex));

    let outcome = disk.run(&args);

    assert!(outcome.error.is_none(), "{:?}", outcome.error);
    assert!(disk.text("usage.ts").contains("throw new CapError()"));
    assert!(
        results(&outcome)[0].match_kind.contains("expect matched \u{b7} sha matched"),
        "{outcome:?}"
    );
}

#[test]
fn old_without_new_is_a_usage_error_naming_new_and_writes_nothing() {
    let mut disk = disk(&[("usage.ts", USAGE)]);
    let mut args = edit_args("usage.ts");
    args.old = Some("const cap = 10".to_owned());

    let error = error_of(disk.run(&args));

    assert_eq!(disk.text("usage.ts"), USAGE);
    assert_eq!(error.slug(), "usage");
    assert!(error.text().contains("--new is required"), "{}", error.text());
}

#[test]
fn new_without_old_expect_or_an_insert_is_a_usage_error_naming_old() {
    let mut disk = disk(&[("usage.ts", USAGE)]);
    let mut args = edit_args("usage.ts:3");
    args.new = Some("x".to_owned());

    let error = error_of(disk.run(&args));

    assert_eq!(disk.text("usage.ts"), USAGE);
    assert_eq!(error.slug(), "usage");
    assert!(error.text().contains("--old is required"), "{}", error.text());
}

#[test]
fn old_with_an_empty_new_deletes_the_match() {
    let mut disk = disk(&[("usage.ts", USAGE)]);

    let outcome = disk.run(&replacing("usage.ts", "  const now = Date.now()\n", ""));

    assert!(outcome.error.is_none(), "{:?}", outcome.error);
    assert_eq!(disk.text("usage.ts"), USAGE.replace("  const now = Date.now()\n", ""));
}

#[test]
fn insert_after_a_regex_anchor_lands_on_the_next_line() {
    let mut disk =
        disk(&[("app.ts", "import React from 'react'\n\nexport const App = () => null\n")]);
    let mut args = edit_args("app.ts");
    args.insert_after = Some("@^import .* from".to_owned());
    args.new = Some("import { usage } from './store/usage'".to_owned());

    let outcome = disk.run(&args);

    assert!(outcome.error.is_none(), "{:?}", outcome.error);
    assert_eq!(
        disk.text("app.ts"),
        "import React from 'react'\nimport { usage } from './store/usage'\n\nexport const App \
         = () => null\n"
    );
    let [result] = results(&outcome) else {
        panic!("one edit, one result");
    };
    assert!(matches!(&result.kind, EditKind::Inserted { lines: 1, anchor } if anchor.at == "line 1"));
    assert!(shown(result).contains(&(2, Marker::Added, "import { usage } from './store/usage'")));
}

#[test]
fn an_insert_before_whose_new_ends_in_a_crlf_adds_one_line_to_a_crlf_file() {
    let mut disk = disk(&[("a.ts", "const a = 1;\r\nconst b = 2;\r\n")]);
    let mut args = edit_args("a.ts");
    args.insert_before = Some("@^const b".to_owned());
    args.new = Some("const c = 3;\r\n".to_owned());

    let outcome = disk.run(&args);

    assert!(outcome.error.is_none(), "{:?}", outcome.error);
    assert_eq!(
        disk.text("a.ts"),
        "const a = 1;\r\nconst c = 3;\r\nconst b = 2;\r\n"
    );
}

#[test]
fn an_insert_of_two_lines_ending_in_a_newline_adds_exactly_two() {
    let mut disk = disk(&[("m.py", "import os\nx = 1\n")]);
    let mut args = edit_args("m.py");
    args.insert_after = Some("@^import".to_owned());
    args.new = Some("import sys\n\n".to_owned());

    let outcome = disk.run(&args);

    assert!(outcome.error.is_none(), "{:?}", outcome.error);
    assert_eq!(disk.text("m.py"), "import os\nimport sys\n\nx = 1\n");
    assert!(matches!(results(&outcome)[0].kind, EditKind::Inserted { lines: 2, .. }));
}

#[test]
fn insert_after_an_anchor_that_matches_nothing_writes_nothing() {
    let before = "import React from 'react'\n";
    let mut disk = disk(&[("app.ts", before)]);
    let mut args = edit_args("app.ts");
    args.insert_after = Some("@^require".to_owned());
    args.new = Some("import { usage } from './store/usage'".to_owned());

    let error = error_of(disk.run(&args));

    assert_eq!(disk.text("app.ts"), before);
    assert_eq!(error.slug(), "not_found");
}

#[test]
fn insert_before_a_symbol_anchor_names_the_symbol_and_its_line() {
    let mut disk = disk(&[("usage.ts", USAGE)]);
    let mut args = edit_args("usage.ts");
    args.insert_before = Some("#usage".to_owned());
    args.new = Some("/** Returns the running total for id. */".to_owned());

    let outcome = disk.run(&args);

    assert!(outcome.error.is_none(), "{:?}", outcome.error);
    assert!(
        disk.text("usage.ts")
            .starts_with("/** Returns the running total for id. */\nexport function")
    );
    let EditKind::Inserted { lines: 1, anchor } = &results(&outcome)[0].kind else {
        panic!("one line was inserted");
    };
    assert_eq!(anchor.line, Some(1));
    assert_eq!(anchor.at, "#usage");
}

#[test]
fn a_layer_1_failure_renders_the_edit_reverted_and_leaves_the_file_alone() {
    let mut disk = disk(&[("usage.ts", USAGE)]);
    disk.check = |_| layer1(false, "failed");

    let outcome = disk.run(&replacing("usage.ts", "return total", "return total)"));

    assert_eq!(disk.text("usage.ts"), USAGE, "layer 1 runs before any write");
    let [result] = results(&outcome) else {
        panic!("the refused edit is shown");
    };
    assert!(result.reverted);
    assert!(
        shown(result)
            .iter()
            .any(|line| line.2.contains("return total)          \u{2190} parse error")),
        "{:?}",
        shown(result)
    );
    let check = result.check.as_ref().expect("the structure was checked");
    assert_eq!(check.status, "failed \u{2192} reverted");
    assert_eq!(result.sha.before.hex, result.sha.after.hex, "the file is unchanged");
    assert_eq!(error_of(outcome).slug(), "check_failed");
}

#[test]
fn a_layer_1_pass_lands_the_edit() {
    let mut disk = disk(&[("usage.ts", USAGE)]);

    let outcome = disk.run(&replacing("usage.ts", "return total", "return total + 1"));

    assert!(outcome.error.is_none());
    assert!(disk.text("usage.ts").contains("return total + 1"));
}

#[test]
fn if_sha_that_does_not_match_writes_nothing() {
    let mut disk = disk(&[("usage.ts", USAGE)]);
    let mut args = replacing("usage.ts", "const cap = 10", "const cap = 20");
    args.if_sha = Some("sha:000000000000".to_owned());

    let error = error_of(disk.run(&args));

    assert_eq!(disk.text("usage.ts"), USAGE);
    assert_eq!(error.slug(), "changed");
}

#[test]
fn if_sha_that_matches_applies_the_edit() {
    let mut disk = disk(&[("usage.ts", USAGE)]);
    let mut args = replacing("usage.ts", "const cap = 10", "const cap = 20");
    args.if_sha = Some(format!("sha:{}", sha(USAGE.as_bytes()).hex));

    let outcome = disk.run(&args);

    assert!(outcome.error.is_none(), "{:?}", outcome.error);
    assert!(disk.text("usage.ts").contains("const cap = 20"));
}

fn multi_target_args(targets: &[&str], old: &str, new: &str) -> EditArgs {
    let mut args = replacing(targets[0], old, new);
    args.more_targets = targets[1..].iter().map(|t| (*t).to_owned()).collect();
    args
}

#[test]
fn several_targets_with_the_same_old_and_new_change_every_file() {
    let mut disk = disk(&[("a.ts", "const cap = 10\n"), ("b.ts", "const cap = 10\n")]);

    let outcome =
        disk.run(&multi_target_args(&["a.ts", "b.ts"], "const cap = 10", "const cap = 20"));

    assert!(outcome.error.is_none(), "{:?}", outcome.error);
    assert_eq!(disk.text("a.ts"), "const cap = 20\n");
    assert_eq!(disk.text("b.ts"), "const cap = 20\n");
    assert!(
        outcome.response.summary.contains("2 files \u{b7} 2 edits \u{b7} all applied"),
        "{}",
        outcome.response.summary
    );
}

#[test]
fn one_of_several_targets_missing_the_old_string_writes_none_of_the_batch() {
    let mut disk = disk(&[("a.ts", "const cap = 10\n"), ("b.ts", "no match here\n")]);

    let error = error_of(
        disk.run(&multi_target_args(&["a.ts", "b.ts"], "const cap = 10", "const cap = 20")),
    );

    assert_eq!(error.slug(), "not_found");
    assert_eq!(disk.text("a.ts"), "const cap = 10\n");
    assert_eq!(disk.text("b.ts"), "no match here\n");
}

#[test]
fn several_targets_with_if_are_refused_before_any_write() {
    let mut disk = disk(&[("a.ts", "const cap = 10\n"), ("b.ts", "const cap = 10\n")]);
    let mut args = multi_target_args(&["a.ts", "b.ts"], "const cap = 10", "const cap = 20");
    args.if_sha = Some("sha:000000000000".to_owned());

    let error = error_of(disk.run(&args));

    assert_eq!(error.slug(), "usage");
    assert!(error.text().contains("--if"), "{}", error.text());
    assert_eq!(disk.text("a.ts"), "const cap = 10\n");
    assert_eq!(disk.text("b.ts"), "const cap = 10\n");
}

#[test]
fn a_target_named_twice_by_a_different_spelling_is_edited_once() {
    let mut disk = disk(&[("a.ts", "const cap = 10\n")]);

    let outcome =
        disk.run(&multi_target_args(&["a.ts", "./a.ts"], "const cap = 10", "const cap = 20"));

    assert!(outcome.error.is_none(), "{:?}", outcome.error);
    assert_eq!(disk.text("a.ts"), "const cap = 20\n");
    assert_eq!(results(&outcome).len(), 1);
    assert!(!outcome.response.summary.contains("all applied"));
}

#[test]
fn a_project_checker_that_passes_both_times_lands_the_edit() {
    let mut disk = disk(&[("usage.ts", USAGE)]);
    let mut args = replacing("usage.ts", "const cap = 10", "const cap = 20");
    args.check = Some("true".to_owned());
    disk.verdict = Some(CommandVerdict::Passed);

    let outcome = disk.run(&args);

    assert!(outcome.error.is_none(), "{:?}", outcome.error);
    assert!(disk.text("usage.ts").contains("const cap = 20"));
    let check = results(&outcome)[0].check.as_ref().expect("the checker's word");
    assert_eq!((check.layer.as_str(), check.status.as_str()), ("true", "ok"));
}

#[test]
fn a_layer_2_failure_carries_the_checkers_own_first_line() {
    let mut disk = disk(&[("usage.ts", USAGE)]);
    let mut args = replacing("usage.ts", "const cap = 10", "const cap = 20");
    args.check = Some("tsc".to_owned());
    disk.verdict = Some(CommandVerdict::Failed("usage.ts(3,9): cap moved".to_owned()));

    let error = error_of(disk.run(&args));

    assert_eq!(
        disk.text("usage.ts"),
        USAGE,
        "the batch is reverted under its own lock"
    );
    assert_eq!(error.slug(), "check_failed");
    let message = error.text();
    assert!(
        message.contains("failed after it: usage.ts(3,9): cap moved \u{b7} 1 file reverted"),
        "{message}"
    );
}

fn three_landed_then_checked(stuck: &[&'static str]) -> (Disk, Outcome) {
    let mut disk = disk(&[
        ("a/f.ts", "const cap = 10\n"),
        ("b/f.ts", "const cap = 10\n"),
        ("c/f.ts", "const cap = 10\n"),
    ]);
    disk.stuck = stuck.to_vec();
    disk.verdict = Some(CommandVerdict::Failed(String::new()));
    let mut args =
        multi_target_args(&["c/f.ts", "a/f.ts", "b/f.ts"], "cap = 10", "cap = 20");
    args.check = Some("sh chk.sh".to_owned());
    let outcome = disk.run(&args);
    (disk, outcome)
}

#[test]
fn a_revert_that_cannot_restore_every_file_names_each_files_final_state() {
    let (disk, outcome) = three_landed_then_checked(&["a/f.ts", "c/f.ts"]);

    assert_eq!(disk.text("a/f.ts"), "const cap = 20\n");
    assert_eq!(disk.text("b/f.ts"), "const cap = 10\n");
    assert_eq!(disk.text("c/f.ts"), "const cap = 20\n");
    assert_eq!(
        outcome.response.summary,
        "`sh chk.sh` failed after 3 files landed \u{b7} restored b/f.ts \u{b7} not \
         restored c/f.ts, a/f.ts"
    );
    assert!(outcome.response.omitted.iter().any(|note| matches!(
        note,
        Omission::PartialBatch { written } if *written == ["c/f.ts", "a/f.ts"]
    )));
    let error = error_of(outcome);
    assert_eq!(error.slug(), "partial_batch");
    assert!(
        error.text().contains(
            "could not restore c/f.ts (permission denied), a/f.ts (permission denied)"
        ),
        "{}",
        error.text()
    );
}

#[test]
fn a_revert_that_restores_every_file_exits_check_failed() {
    let (disk, outcome) = three_landed_then_checked(&[]);

    for name in ["a/f.ts", "b/f.ts", "c/f.ts"] {
        assert_eq!(disk.text(name), "const cap = 10\n");
    }
    let error = error_of(outcome);
    assert_eq!(error.slug(), "check_failed");
    assert!(error.text().contains("3 files reverted"), "{}", error.text());
}

#[test]
fn two_matches_further_apart_than_their_context_name_the_lines_between_them() {
    let mut before = String::from("const a = usageCap\n");
    for n in 2..=41 {
        before.push_str(&format!("const x{n} = {n}\n"));
    }
    before.push_str("const b = usageCap\n");
    for n in 43..=50 {
        before.push_str(&format!("const y{n} = {n}\n"));
    }
    let mut disk = disk(&[("a.ts", &before)]);
    let mut args = replacing("a.ts", "usageCap", "usageLimit");
    args.all = true;

    let outcome = disk.run(&args);

    assert!(outcome.error.is_none(), "{:?}", outcome.error);
    let [result] = results(&outcome) else {
        panic!("one edit, one result");
    };
    let region = result.region.as_ref().expect("a replacement has a region");
    let gaps: Vec<&str> = region
        .lines
        .iter()
        .filter(|line| line.marker == Marker::Gap)
        .map(|line| line.text.as_str())
        .collect();
    assert_eq!(gaps, [":3-40 not shown"]);
    assert!(outcome.response.omitted.iter().any(|note| matches!(
        note,
        Omission::RegionGap { not_shown, path: None } if *not_shown == [(3, 40)]
    )));
    let numbers: Vec<usize> = region
        .lines
        .iter()
        .filter(|line| line.marker != Marker::Gap)
        .map(|line| line.number)
        .collect();
    assert_eq!(region.start, *numbers.first().expect("a line"));
    assert_eq!(region.end, *numbers.last().expect("a line"));
}

#[test]
fn two_matches_inside_one_context_window_render_one_block_with_no_gap() {
    let mut disk =
        disk(&[("a.ts", "const a = usageCap\nconst x = 1\nconst b = usageCap\n")]);
    let mut args = replacing("a.ts", "usageCap", "usageLimit");
    args.all = true;

    let outcome = disk.run(&args);

    let region = results(&outcome)[0].region.as_ref().expect("a replacement has a region");
    assert!(
        region.lines.iter().all(|line| line.marker != Marker::Gap),
        "{region:?}"
    );
    assert!(outcome.response.omitted.is_empty(), "{:?}", outcome.response.omitted);
}

#[test]
fn inserting_after_the_last_line_of_a_file_with_no_trailing_newline_marks_the_new_line() {
    let mut disk = disk(&[("f.txt", "x\ny")]);
    let mut args = edit_args("f.txt");
    args.insert_after = Some("@y".to_owned());
    args.new = Some("z".to_owned());

    let outcome = disk.run(&args);

    assert!(outcome.error.is_none(), "{:?}", outcome.error);
    assert_eq!(disk.read("f.txt"), b"x\ny\nz");
    let [result] = results(&outcome) else {
        panic!("one edit, one result");
    };
    assert_eq!(result.lines, vec![3]);
    let added: Vec<usize> = shown(result)
        .iter()
        .filter(|line| line.1 == Marker::Added)
        .map(|line| line.0)
        .collect();
    assert_eq!(added, vec![3]);
}

#[test]
fn inserting_after_the_last_line_of_a_file_that_ends_with_a_newline_marks_the_new_line() {
    let mut disk = disk(&[("f.txt", "x\ny\n")]);
    let mut args = edit_args("f.txt");
    args.insert_after = Some("@y".to_owned());
    args.new = Some("z".to_owned());

    let outcome = disk.run(&args);

    assert!(outcome.error.is_none(), "{:?}", outcome.error);
    assert_eq!(disk.read("f.txt"), b"x\ny\nz\n");
    assert_eq!(results(&outcome)[0].lines, vec![3]);
}

#[test]
fn a_multi_line_replacement_in_a_crlf_file_joins_with_crlf() {
    let mut disk = disk(&[("a.ts", "const a = 1\r\nconst cap = 10\r\nconst b = 2\r\n")]);

    let outcome =
        disk.run(&replacing("a.ts", "const cap = 10", "const cap = 20\nconst floor = 1"));

    assert!(outcome.error.is_none(), "{:?}", outcome.error);
    assert_eq!(
        disk.read("a.ts"),
        b"const a = 1\r\nconst cap = 20\r\nconst floor = 1\r\nconst b = 2\r\n"
    );
}

#[test]
fn a_multi_line_replacement_in_an_lf_file_joins_with_lf() {
    let mut disk = disk(&[("a.ts", "const a = 1\nconst cap = 10\nconst b = 2\n")]);

    let outcome =
        disk.run(&replacing("a.ts", "const cap = 10", "const cap = 20\nconst floor = 1"));

    assert!(outcome.error.is_none(), "{:?}", outcome.error);
    assert_eq!(
        disk.read("a.ts"),
        b"const a = 1\nconst cap = 20\nconst floor = 1\nconst b = 2\n"
    );
}

#[test]
fn an_insert_before_the_first_line_of_a_bom_file_lands_after_the_bom() {
    let mut disk = disk(&[("f.txt", "\u{feff}first\nsecond\n")]);
    let mut args = edit_args("f.txt");
    args.insert_before = Some("@first".to_owned());
    args.new = Some("zero".to_owned());

    let outcome = disk.run(&args);

    assert!(outcome.error.is_none(), "{:?}", outcome.error);
    assert_eq!(disk.read("f.txt"), b"\xEF\xBB\xBFzero\nfirst\nsecond\n");
}

#[test]
fn an_insert_before_the_first_line_of_a_file_with_no_bom_lands_at_byte_zero() {
    let mut disk = disk(&[("f.txt", "first\nsecond\n")]);
    let mut args = edit_args("f.txt");
    args.insert_before = Some("@first".to_owned());
    args.new = Some("zero".to_owned());

    let outcome = disk.run(&args);

    assert!(outcome.error.is_none(), "{:?}", outcome.error);
    assert_eq!(disk.read("f.txt"), b"zero\nfirst\nsecond\n");
}

#[test]
fn a_needle_typed_with_lf_is_found_in_a_crlf_file_and_that_is_named() {
    let mut disk = disk(&[("a.ts", "const a = 1\r\nconst b = 2\r\n")]);

    let outcome = disk.run(&replacing("a.ts", "a = 1\nconst b", "a = 3\nconst c"));

    assert!(outcome.error.is_none(), "{:?}", outcome.error);
    assert_eq!(disk.read("a.ts"), b"const a = 3\r\nconst c = 2\r\n");
    assert!(outcome.response.omitted.iter().any(|note| matches!(note, Omission::CrlfMatched)));
}

#[test]
fn a_miss_in_a_file_of_mixed_endings_says_so() {
    let mut disk = disk(&[("a.ts", "const a = 1\r\nconst b = 2\n")]);

    let error = error_of(disk.run(&replacing("a.ts", "a = 1\nconst b", "x")));

    assert!(matches!(error, Error::MixedEndings { .. }), "{error:?}");
}

#[test]
fn an_edit_of_an_empty_or_a_binary_file_is_refused() {
    let mut disk = disk(&[("e.ts", ""), ("b.bin", "a\0b")]);

    let error = error_of(disk.run(&replacing("e.ts", "a", "b")));
    assert!(matches!(error, Error::EmptyFile { .. }), "{error:?}");

    let error = error_of(disk.run(&replacing("b.bin", "a", "b")));
    assert!(
        matches!(error, Error::Unsupported { reason: UnsupportedReason::Binary, .. }),
        "{error:?}"
    );
}

#[test]
fn a_file_with_no_grammar_is_edited_and_names_the_skipped_check() {
    let mut disk = disk(&[("a.txt", "one\n")]);
    disk.check = |_| Checked::NoGrammar { extension: Some("txt".to_owned()) };

    let outcome = disk.run(&replacing("a.txt", "one", "two"));

    assert!(outcome.error.is_none(), "{:?}", outcome.error);
    assert!(outcome.response.omitted.iter().any(|note| matches!(
        note,
        Omission::CheckSkipped { reason } if reason == "no grammar for .txt"
    )));
    assert_eq!(no_grammar_reason("Makefile", &None), "no grammar for Makefile");
}

#[test]
fn a_pattern_that_lost_its_quotes_to_a_shell_is_spelled_with_them_again() {
    assert_eq!(respelled("a.ts", "@^import", true).as_deref(), Some("a.ts@'^import'"));
    assert_eq!(respelled("a.ts", "@^import", false), None);
    assert_eq!(respelled("a.ts", "#usage", true), None);
}

fn replacement(raw: &str, old: &str, new: &str, if_sha: Option<Sha12>) -> EditSpec {
    EditSpec {
        raw: raw.to_owned(),
        op: EditOp::Replace {
            old: old.as_bytes().to_vec(),
            new: new.as_bytes().to_vec(),
            all: false,
        },
        if_sha,
        normalize: false,
        literal_newlines: false,
    }
}

fn disk_of(name: &'static str, content: &str) -> Disk {
    Disk {
        files: vec![(name, content.as_bytes().to_vec())],
        check: sound,
        verdict: None,
        stuck: Vec::new(),
        fold: Vec::new(),
    }
}

#[test]
fn each_edit_starts_from_what_the_one_before_left_and_the_hashes_say_so() {
    let disk = disk_of("a.txt", "one\n");
    let specs = [
        replacement("a.txt", "one", "two", None),
        replacement("a.txt", "two", "three", None),
        replacement("a.txt", "three", "four", None),
    ];
    let group = Group { file: "a.txt".to_owned(), members: vec![0, 1, 2] };

    let plan = disk.validate(&specs, &group, &mut Vec::new(), &mut None).expect("all apply");

    assert_eq!(plan.before, b"one\n");
    assert_eq!(plan.after, b"four\n");
    let hashes: Vec<(&str, &str)> = plan
        .detail
        .iter()
        .map(|result| (result.sha.before.hex.as_str(), result.sha.after.hex.as_str()))
        .collect();
    let of = |text: &str| sha(text.as_bytes()).hex;
    let (one, two, three, four) = (of("one\n"), of("two\n"), of("three\n"), of("four\n"));
    assert_eq!(hashes, [(&*one, &*two), (&*two, &*three), (&*three, &*four)]);
}

#[test]
fn a_hash_is_held_against_the_disk_even_after_an_earlier_edit() {
    let disk = disk_of("a.txt", "one\n");
    let group = Group { file: "a.txt".to_owned(), members: vec![0, 1] };
    let on_disk = sha(b"one\n");
    let specs = [
        replacement("a.txt", "one", "two", None),
        replacement("a.txt", "two", "three", Some(on_disk)),
    ];
    let plan = disk.validate(&specs, &group, &mut Vec::new(), &mut None).expect("both apply");
    assert_eq!(plan.after, b"three\n");

    let specs = [
        replacement("a.txt", "one", "two", None),
        replacement("a.txt", "two", "three", Some(sha(b"two\n"))),
    ];
    let refused = disk.validate(&specs, &group, &mut Vec::new(), &mut None).unwrap_err();
    assert_eq!(refused.slug(), "changed");
}

#[test]
fn a_file_that_is_not_there_is_a_mistyped_target_where_another_is_meant() {
    let spec = replacement("a.txt 3", "one", "two", None);
    let gone = || {
        Some(Err(Error::Io {
            path: "a.txt 3".to_owned(),
            detail: "no such file".to_owned(),
            missing: true,
        }))
    };
    let mut trial = Trial::new("a.txt 3".to_owned());
    assert!(trial.reads(&spec));
    let error = trial.start(&spec, gone(), Some("a.txt:3".to_owned())).unwrap_err();
    assert!(matches!(error, Error::MistypedTarget { meant, .. } if meant == "a.txt:3"));
    let error = trial.start(&spec, gone(), None).unwrap_err();
    assert_eq!(error.slug(), "not_found");
    assert_eq!(trial.planned().unwrap_err().slug(), "not_found");
}

#[test]
fn an_insert_after_a_line_past_the_last_is_appended_and_one_before_it_is_refused() {
    let insert = |side| EditSpec {
        raw: "a.txt".to_owned(),
        op: EditOp::Insert { side, anchor: "#f".to_owned(), new: b"new".to_vec() },
        if_sha: None,
        normalize: false,
        literal_newlines: false,
    };
    let made = |side| {
        let spec = insert(side);
        let mut trial = Trial::new("a.txt".to_owned());
        trial.start(&spec, Some(Ok((b"one\n".to_vec(), sha(b"one\n")))), None)?;
        let lookup = Lookup::Symbols {
            found: vec![SymbolMatch {
                start: 0,
                end: 4,
                line: 9,
                end_line: 9,
                end_guessed: false,
                text: "fn f".to_owned(),
            }],
            hint: None,
        };
        let kind = Kind::Symbol(vec!["f".to_owned()]);
        trial.prepare(&spec, "a.txt", &kind, &lookup)?;
        Ok(trial.made().expect("the edit is made").after.clone())
    };
    let appended: Result<Vec<u8>, Error> = made(AnchorSide::After);
    assert_eq!(appended.expect("it is appended"), b"one\nnew\n");
    let refused: Result<Vec<u8>, Error> = made(AnchorSide::Before);
    assert_eq!(refused.unwrap_err().slug(), "not_found");
}

#[test]
fn a_directory_is_placed_as_seen_from_another() {
    let names = |parts: &[&str]| -> Vec<String> { parts.iter().map(|s| s.to_string()).collect() };
    let seen = |cwd: &[&str], dir: &[&str]| place(&names(cwd), &names(dir));
    assert_eq!(seen(&["/", "w"], &["/", "w"]), "./");
    assert_eq!(seen(&["/", "w"], &["/", "w", "a", "b"]), "a/b/");
    assert_eq!(seen(&["/", "w", "sub"], &["/", "w", "x"]), "../x/");
    assert_eq!(seen(&[], &["/", "a"]), "/a/");
}

fn echoed(texts: &[&str]) -> EditResult {
    let line = |(at, text): (usize, &&str)| Line {
        number: at + 1,
        marker: Marker::Context,
        text: (*text).to_owned(),
    };
    let sha = || Sha12 { hex: "0".repeat(12) };
    EditResult {
        path: "f".to_owned(),
        lines: vec![1],
        match_kind: "exact".to_owned(),
        resolver: None,
        region: Some(Region {
            start: 1,
            end: texts.len(),
            lines: texts.iter().enumerate().map(line).collect(),
        }),
        check: None,
        sha: ShaPair { before: sha(), after: sha() },
        reverted: false,
        kind: EditKind::Replaced { count: 1 },
    }
}

#[test]
fn a_bounded_answer_shows_no_more_bytes_than_the_limit() {
    for limit in 0..=20 {
        let mut results = vec![echoed(&["abc", "de"]), echoed(&["fghi", ""])];
        let mut omitted = Vec::new();

        bound_output(&mut results, limit, &mut omitted);

        let lines = results.iter().filter_map(|result| result.region.as_ref()).flat_map(|r| &r.lines);
        let shown: usize = lines.map(|line| line.text.len() + 1).sum();
        assert!(shown <= limit, "{shown} of {limit}");
        let dropped = match &omitted[..] {
            [] => 0,
            [Omission::OutputTrimmed { limit: told, lines }] if *told == limit => *lines,
            other => panic!("{other:?}"),
        };
        let kept: usize =
            results.iter().filter_map(|result| result.region.as_ref()).map(|r| r.lines.len()).sum();
        assert_eq!(kept + dropped, 4);
        assert_eq!(dropped == 0, limit >= 13);
    }
}

#[test]
fn the_first_new_failure_settles_all_checkers() {
    let checker = |command: &str| Checker { command: command.to_owned(), place: None };
    let checkers = vec![checker("a"), checker("b"), checker("c")];
    let mut omitted = Vec::new();
    let failed = CommandVerdict::Failed("boom".to_owned());
    let verdicts = vec![CommandVerdict::Passed, failed];

    let (label, excerpt) = settle_all(&checkers, &verdicts, &mut omitted).expect_err("a failure");

    assert!(label.contains('b'), "{label}");
    assert_eq!(excerpt, "boom");
    assert!(omitted.is_empty(), "{omitted:?}");

    let verdicts = vec![CommandVerdict::Passed, CommandVerdict::Passed, CommandVerdict::Passed];
    let settled = settle_all(&checkers, &verdicts, &mut omitted).expect("no failure");
    assert!(settled.is_some());
}
