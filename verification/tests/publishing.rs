use renium::experience::{
    choices, experience_places, find_experience_root, matches_selector, resolve_experience_place, ExperienceEntry,
    ExperienceError, ExperiencePlace, SelectError,
};
use renium::json::{get_dotted, Json, Member, Number};
use renium::numbers::{parse_i64, parse_u64};
use renium::paths::{path_from_text, FilePath};
use renium::project::{Files, SourceKind};
use renium::publish::{
    after_studio_answer, check_publish_options, check_runtime, civil_from_days, cloud_request, days_from_civil,
    humantime_parse, is_unsupported_chain, key_variable, parse_seconds, plan_upload, published_version, save_place_api_refused,
    studio_failure, studio_publish_event, studio_publish_step, superclass_chain, to_signed_decimal, unsupported_classes, unsupported_text,
    upload_needs_project, upload_report, validate_size, CloudOption, PublishArgs, PublishOptionError, PublishStep, RuntimeError,
    StudioAnswer, StudioPublishEvent, UploadError, UploadPlan, MAX_PLACE_BYTES,
};
use renium::table::Table;

fn text_at(value: &Json, key: &str) -> Option<String> {
    match get_dotted(value, key) {
        Some(Json::Text(s)) => Some(s.clone()),
        _ => None,
    }
}

fn object(members: Vec<(&str, Json)>) -> Json {
    Json::Object(members.into_iter().map(|(key, value)| Member { key: key.to_string(), value }).collect())
}

#[test]
fn studio_publish_log_lines_report_success_failure_and_version() {
    let since = humantime_parse("2026-09-22T13:15:00.000Z").unwrap();
    assert_eq!(
        studio_publish_event(
            "2026-09-22T13:15:11.403Z,486.403290,a8fc,6,Debug [FLog::PublishSessionStateController] Go to PublishSuccessful",
            since
        ),
        Some(StudioPublishEvent::Succeeded { version: None })
    );
    assert_eq!(
        studio_publish_event(
            "2026-09-22T13:15:11.414Z,486.414337,0b4c,6,Info [FLog::CreatorOutput] \u{2192} Add publish notes to v2745",
            since
        ),
        Some(StudioPublishEvent::Succeeded { version: Some(2745) })
    );
    assert_eq!(
        studio_publish_event(
            "2026-09-22T13:14:59.000Z,480.0,a8fc,6,Debug [FLog::PublishSessionStateController] Go to PublishSuccessful",
            since
        ),
        None
    );
    assert!(matches!(
        studio_publish_event(
            "2026-09-22T13:16:00.000Z,500.0,a8fc,6,Debug [FLog::PublishSessionStateController] Go to PublishFailed",
            since
        ),
        Some(StudioPublishEvent::Failed(_))
    ));
    assert!(save_place_api_refused(
        "Studio publish failed: Game:SavePlace can only be called from a server script. Save Place API must be enabled for this place"
    ));
    assert!(!save_place_api_refused("connection closed"));
    assert_eq!(days_from_civil(1970, 1, 1), 0);
    assert_eq!(days_from_civil(2000, 3, 1), 11_017);
}

#[test]
fn studio_publish_watcher_reads_logs_studio_still_holds_open() {
    let since = humantime_parse("2026-09-22T13:07:00.000Z").unwrap();
    let published = vec![
        "2026-09-22T13:07:01.000Z,1.0,a8fc,6,Debug [FLog::PublishSessionStateController] Go to PublishSuccessful".to_string(),
        "2026-09-22T13:07:02.000Z,2.0,0b4c,6,Info [FLog::CreatorOutput] Add publish notes to v2746".to_string(),
    ];
    assert_eq!(studio_publish_step(&published, since, true), PublishStep::Published { version: Some(2746) });
    let failed = vec![
        "2026-09-22T13:07:03.000Z,3.0,a8fc,6,Debug [FLog::PublishSessionStateController] Go to PublishFailed".to_string(),
    ];
    assert!(matches!(studio_publish_step(&failed, since, true), PublishStep::Failed(_)));
    assert_eq!(studio_publish_step(&Vec::new(), since, false), PublishStep::TimedOut);
    assert_eq!(studio_publish_step(&Vec::new(), since, true), PublishStep::Wait);
}

#[test]
fn dates_lead_back_to_their_days() {
    for days in [-800_000i64, -1, 0, 59, 60, 11_016, 11_017, 20_000, 730_000] {
        let date = civil_from_days(days);
        assert_eq!(days_from_civil(date.year as i64, date.month as i64, date.day as i64), days as i128);
    }
    let leap = civil_from_days(11_016);
    assert_eq!((leap.year, leap.month, leap.day), (2000, 2, 29));
    assert_eq!(humantime_parse("1970-01-02T00:00:01.500Z"), Some(86_401_500_000_000));
    assert_eq!(humantime_parse("yesterday"), None);
    assert_eq!(parse_seconds("12.25"), Some(12_250_000_000));
    assert_eq!(parse_seconds("1.5e1"), Some(15_000_000_000));
    assert_eq!(parse_seconds("-25E-1"), Some(-2_500_000_000));
    assert_eq!(parse_seconds("1e"), None);
}

#[test]
fn numbers_are_read_within_their_range() {
    assert_eq!(parse_u64("18446744073709551615"), Some(u64::MAX));
    assert_eq!(parse_u64("18446744073709551616"), None);
    assert_eq!(parse_i64("-9223372036854775808"), Some(i64::MIN));
    assert_eq!(parse_i64("+7"), Some(7));
    assert_eq!(parse_i64("7x"), None);
    assert_eq!(to_signed_decimal(i64::MIN), "-9223372036854775808");
    assert_eq!(to_signed_decimal(42), "42");
}

fn args(input: &[&str]) -> Option<PublishArgs> {
    let mut out = PublishArgs { open_cloud: false, file: None, universe: None, place_id: None, key_env: None, dry_run: false };
    let mut i = 0;
    while i < input.len() {
        match input[i] {
            "--open-cloud" => out.open_cloud = true,
            "--dry-run" => out.dry_run = true,
            "--file" => {
                i += 1;
                out.file = Some(path_from_text(input[i]));
            }
            "--universe" => {
                i += 1;
                out.universe = Some(parse_i64(input[i])?);
            }
            "--place-id" => {
                i += 1;
                out.place_id = Some(parse_i64(input[i])?);
            }
            "--key-env" => {
                i += 1;
                out.key_env = Some(input[i].to_string());
            }
            _ => return None,
        }
        i += 1;
    }
    if check_publish_options(&out).is_ok() {
        Some(out)
    } else {
        None
    }
}

#[test]
fn publish_defaults_to_studio_and_requires_explicit_cloud_options() {
    assert!(!args(&[]).unwrap().open_cloud);
    assert!(args(&["--dry-run"]).unwrap().dry_run);
    assert!(args(&["--open-cloud"]).unwrap().open_cloud);
    for options in [
        vec!["--file", "place.rbxl"],
        vec!["--universe", "123"],
        vec!["--key-env", "KEY"],
        vec!["--place-id", "456"],
    ] {
        assert!(args(&options).is_none());
    }
    assert!(args(&["--open-cloud", "--place-id", "0"]).is_none());
}

#[test]
fn refused_options_are_named() {
    let mut wrong = args(&["--open-cloud", "--place-id", "456"]).unwrap();
    wrong.open_cloud = false;
    assert_eq!(check_publish_options(&wrong).err(), Some(PublishOptionError::NeedsOpenCloud(CloudOption::PlaceId)));
    wrong.open_cloud = true;
    wrong.universe = Some(-1);
    assert_eq!(check_publish_options(&wrong).err(), Some(PublishOptionError::BadId(CloudOption::Universe)));
}

#[test]
fn publish_upload_shape_and_completion_are_explicit() {
    for (extension, mime) in [("rbxl", "application/octet-stream"), ("rbxlx", "application/xml")] {
        let file = path_from_text(&format!("place.{extension}"));
        let request = cloud_request(&file);
        assert_eq!(text_at(&request, "method"), Some("POST".to_string()));
        assert_eq!(text_at(&request, "query.versionType"), Some("Published".to_string()));
        assert_eq!(text_at(&request, "rawFile"), Some(file.to_slash()));
        assert_eq!(text_at(&request, "contentType"), Some(mime.to_string()));
    }
    let answer = |version: Json| object(vec![("body", object(vec![("versionNumber", version)]))]);
    assert_eq!(published_version(&answer(Json::Number(Number::Unsigned(12)))), Some(12));
    assert_eq!(published_version(&answer(Json::Text("13".to_string()))), Some(13));
    for response in [
        object(Vec::new()),
        answer(Json::Number(Number::Unsigned(0))),
        answer(Json::Number(Number::Negative(-1))),
    ] {
        assert_eq!(published_version(&response), None);
    }
    assert!(!validate_size(0));
    assert!(!validate_size(MAX_PLACE_BYTES + 1));
    assert!(validate_size(MAX_PLACE_BYTES));
    let rejected = studio_failure(&Some("This Studio place is unpublished".to_string()), "rejected");
    assert!(!rejected.contains("Version History"));
    let old = studio_failure(&Some("Unknown method: publishPlace".to_string()), "old");
    assert!(old.contains("reopen"));
    assert!(studio_failure(&None, "connection closed").contains("Version History"));
}

fn chain(classes: &[&str]) -> Vec<String> {
    classes.iter().map(|s| s.to_string()).collect()
}

#[test]
fn publish_cloud_validates_binary_xml_and_unsupported_subclasses() {
    let part = chain(&["Part", "BasePart", "Instance"]);
    assert!(!is_unsupported_chain(&part));
    assert!(unsupported_classes(&vec![part]).is_empty());
    for classes in [
        chain(&["SurfaceAppearance", "Instance"]),
        chain(&["UnionOperation", "PartOperation", "Instance"]),
        chain(&["WrapLayer", "BaseWrap", "Instance"]),
        chain(&["WrapTarget", "BaseWrap", "Instance"]),
    ] {
        let class = classes[0].clone();
        let found = unsupported_classes(&vec![classes]);
        assert_eq!(found.len(), 1);
        assert!(unsupported_text(&found).contains(&class));
    }
}

#[test]
fn classes_are_followed_to_the_top() {
    let mut above: Table<String, String> = Table::new();
    above.put("UnionOperation".to_string(), "PartOperation".to_string());
    above.put("PartOperation".to_string(), "Instance".to_string());
    assert_eq!(
        superclass_chain(&above, &"UnionOperation".to_string()),
        chain(&["UnionOperation", "PartOperation", "Instance"])
    );
    assert_eq!(superclass_chain(&above, &"Unknown".to_string()), chain(&["Unknown"]));
    above.put("Instance".to_string(), "UnionOperation".to_string());
    assert_eq!(superclass_chain(&above, &"Instance".to_string()).len(), 4);
}

#[test]
fn publish_cloud_dry_run_needs_no_credentials_and_removes_staging() {
    let options = args(&[
        "--open-cloud", "--dry-run", "--universe", "123", "--place-id", "456", "--key-env", "RENIUM_PUBLISH_TEST_UNSET",
    ])
    .unwrap();
    assert!(upload_needs_project(&options));
    let plan = plan_upload(&options, true, Some(123), Some(456)).unwrap();
    assert_eq!(plan, UploadPlan { from_file: false, game_id: 123, place_id: 456, needs_key: false });
    assert_eq!(key_variable(&options), "RENIUM_PUBLISH_TEST_UNSET");
    let report = upload_report(true, "project", &plan, 10, None);
    assert!(matches!(get_dotted(&report, "published"), Some(Json::Bool(false))));
    assert!(matches!(get_dotted(&report, "placeId"), Some(Json::Number(Number::Unsigned(456)))));
    let mut file = args(&["--open-cloud", "--file", "place.rbxl"]).unwrap();
    assert_eq!(plan_upload(&file, false, None, None).err(), Some(UploadError::NoUniverse));
    file.universe = Some(1);
    assert_eq!(plan_upload(&file, false, Some(1), None).err(), Some(UploadError::NoPlace));
    let built = args(&["--open-cloud"]).unwrap();
    assert_eq!(plan_upload(&built, false, Some(1), Some(2)).err(), Some(UploadError::NoProject));
}

fn place(alias: &str, id: i64, root: &str) -> ExperiencePlace {
    ExperiencePlace {
        alias: alias.to_string(),
        place_id: Some(id),
        root: path_from_text(root),
        experience_root: path_from_text("/game"),
        game_id: Some(123),
        name: None,
    }
}

#[test]
fn publish_selects_one_place_and_never_builds_the_experience_root() {
    let list = vec![place("lobby", 456, "/game/places/lobby"), place("race", 789, "/game/places/race")];
    let root = path_from_text("/game");
    assert_eq!(resolve_experience_place(Some(123), &list, &root, &None).err(), Some(SelectError::ManyPlaces));
    for selector in ["race", "789", "123:789"] {
        assert_eq!(resolve_experience_place(Some(123), &list, &root, &Some(selector.to_string())), Ok(1));
        assert!(matches_selector(Some(123), &list[1], selector));
    }
    assert_eq!(
        resolve_experience_place(Some(123), &list, &root, &Some("unknown".to_string())).err(),
        Some(SelectError::Unknown)
    );
    let race = path_from_text("/game/places/race");
    assert_eq!(resolve_experience_place(Some(123), &list, &race, &None), Ok(1));
    assert!(choices(&list).contains("lobby"));
}

#[test]
fn places_of_an_experience_stay_inside_it() {
    let entry = |root: &str| ExperienceEntry {
        alias: "a".to_string(),
        place_id: None,
        name: None,
        root: path_from_text(root),
    };
    let root = path_from_text("/game");
    let inside: Option<FilePath> = Some(path_from_text("/game/places/a"));
    let outside: Option<FilePath> = Some(path_from_text("/else"));
    assert!(experience_places(&root, None, &vec![entry("places/a")], &vec![inside]).is_ok());
    assert_eq!(
        experience_places(&root, None, &vec![entry("places/a")], &vec![outside]).err(),
        Some(ExperienceError::Outside(0))
    );
    assert_eq!(
        experience_places(&root, None, &vec![entry("places/a")], &vec![None]).err(),
        Some(ExperienceError::Unresolved(0))
    );
    assert_eq!(
        experience_places(&root, None, &vec![entry("/places/a")], &vec![None]).err(),
        Some(ExperienceError::InvalidRoot(0))
    );
    assert_eq!(experience_places(&root, None, &Vec::new(), &Vec::new()).err(), Some(ExperienceError::NoPlaces));
    let mut files = Files::new();
    files.note(path_from_text("/game/renium.experience.json"), SourceKind::File, "x".to_string());
    let found = find_experience_root(&files, &path_from_text("/game/places/a")).unwrap();
    assert_eq!(found.to_slash(), "/game");
}

#[test]
fn a_studio_that_refuses_is_asked_by_command() {
    assert_eq!(after_studio_answer(&None, false), StudioAnswer::Result);
    let refused = Some("Save Place API must be enabled for this place".to_string());
    assert_eq!(after_studio_answer(&refused, false), StudioAnswer::UseCommand);
    assert_eq!(after_studio_answer(&Some("connection closed".to_string()), false), StudioAnswer::Error);
    let a = Some("a".to_string());
    assert!(check_runtime(&a, &a).is_ok());
    assert_eq!(check_runtime(&None, &a).err(), Some(RuntimeError::NotBound));
    assert_eq!(check_runtime(&a, &Some("b".to_string())).err(), Some(RuntimeError::Changed));
}
