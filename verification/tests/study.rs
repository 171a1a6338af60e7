use rep_grow::study::{check_status, default_base_url, StudyChapterImport, StudyConfig, StudyError};

fn config() -> StudyConfig {
    StudyConfig {
        token: "secret".to_string(),
        study_id: "ABCDEFGH".to_string(),
        base_url: "https://example.com/".to_string(),
        default_orientation: Some("white".to_string()),
    }
}

fn pairs(form: &[rep_grow::study::FormField]) -> Vec<(&str, &str)> {
    form.iter().map(|f| (f.name.as_str(), f.value.as_str())).collect()
}

#[test]
fn default_server() {
    assert_eq!(default_base_url(), "https://lichess.org");
}

#[test]
fn config_with_token_and_study_is_accepted() {
    let cfg = StudyConfig {
        token: "abc123".to_string(),
        study_id: "MyStudy".to_string(),
        base_url: "https://example.com".to_string(),
        default_orientation: Some("black".to_string()),
    }
    .checked()
    .unwrap();
    assert_eq!(cfg.token, "abc123");
    assert_eq!(cfg.study_id, "MyStudy");
    assert_eq!(cfg.base_url, "https://example.com");
    assert_eq!(cfg.default_orientation.as_deref(), Some("black"));
}

#[test]
fn blank_token_or_study_is_refused() {
    let mut cfg = config();
    cfg.token = " \t".to_string();
    cfg.study_id = "".to_string();
    assert!(matches!(cfg.checked(), Err(StudyError::MissingToken)));
    let mut cfg = config();
    cfg.token = "".to_string();
    assert!(matches!(cfg.checked(), Err(StudyError::MissingToken)));
    let mut cfg = config();
    cfg.study_id = "\n ".to_string();
    assert!(matches!(cfg.checked(), Err(StudyError::MissingStudyId)));
}

#[test]
fn import_request_is_built_from_config_and_chapter() {
    let chapter = StudyChapterImport {
        study_id: None,
        name: Some("Line A".to_string()),
        pgn: "1. e4 e5 2. Nf3 Nc6 *".to_string(),
        orientation: None,
    };
    let request = config().import_request(&chapter).unwrap();
    assert_eq!(request.url, "https://example.com/api/study/ABCDEFGH/import-pgn");
    assert_eq!(request.token, "secret");
    assert_eq!(
        pairs(&request.form),
        vec![("pgn", "1. e4 e5 2. Nf3 Nc6 *"), ("name", "Line A"), ("orientation", "white")]
    );
}

#[test]
fn chapter_overrides_study_and_orientation() {
    let chapter = StudyChapterImport {
        study_id: Some("OTHER".to_string()),
        name: None,
        pgn: "*".to_string(),
        orientation: Some("black".to_string()),
    };
    let mut cfg = config();
    cfg.base_url = "http://localhost:8080///".to_string();
    let request = cfg.import_request(&chapter).unwrap();
    assert_eq!(request.url, "http://localhost:8080/api/study/OTHER/import-pgn");
    assert_eq!(pairs(&request.form), vec![("pgn", "*"), ("orientation", "black")]);

    cfg.default_orientation = None;
    let chapter = StudyChapterImport { study_id: None, name: None, pgn: "*".to_string(), orientation: None };
    let request = cfg.import_request(&chapter).unwrap();
    assert_eq!(pairs(&request.form), vec![("pgn", "*")]);
}

#[test]
fn import_into_a_blank_study_is_refused() {
    let chapter = StudyChapterImport {
        study_id: Some("  ".to_string()),
        name: None,
        pgn: "*".to_string(),
        orientation: None,
    };
    assert!(matches!(config().import_request(&chapter), Err(StudyError::MissingStudyId)));
    let mut cfg = config();
    cfg.study_id = "".to_string();
    let chapter = StudyChapterImport { study_id: None, name: None, pgn: "*".to_string(), orientation: None };
    assert!(matches!(cfg.import_request(&chapter), Err(StudyError::MissingStudyId)));
}

#[test]
fn only_statuses_in_the_two_hundreds_are_success() {
    for status in [200u16, 201, 204, 299] {
        assert!(check_status(status).is_ok());
    }
    for status in [0u16, 100, 199, 300, 301, 400, 401, 404, 500, 65535] {
        assert!(matches!(check_status(status), Err(StudyError::HttpStatus(s)) if s == status));
    }
}

fn read_config(text: &str) -> Result<StudyConfig, StudyError> {
    let table: toml::Table = match toml::from_str(text) {
        Ok(table) => table,
        Err(err) => return Err(StudyError::ParseToml(err.to_string())),
    };
    let text_of = |key: &str| table.get(key).and_then(|v| v.as_str()).map(str::to_string);
    StudyConfig {
        token: text_of("token").unwrap_or_default(),
        study_id: text_of("study_id").unwrap_or_default(),
        base_url: text_of("base_url").unwrap_or_else(default_base_url),
        default_orientation: text_of("default_orientation"),
    }
    .checked()
}

#[test]
fn config_parses_from_toml() {
    let cfg = read_config(
        r#"
token = "abc123"
study_id = "MyStudy"
base_url = "https://example.com"
default_orientation = "black"
"#,
    )
    .expect("parsed config");
    assert_eq!(cfg.token, "abc123");
    assert_eq!(cfg.study_id, "MyStudy");
    assert_eq!(cfg.base_url, "https://example.com");
    assert_eq!(cfg.default_orientation.as_deref(), Some("black"));
}

#[test]
fn config_without_server_names_the_default_one() {
    let cfg = read_config("token = \"t\"\nstudy_id = \"s\"\n").unwrap();
    assert_eq!(cfg.base_url, "https://lichess.org");
    assert_eq!(cfg.default_orientation, None);
    assert!(matches!(read_config("token = \" \"\nstudy_id = \"s\"\n"), Err(StudyError::MissingToken)));
    assert!(matches!(read_config("token = \"t\"\nstudy_id = \"\"\n"), Err(StudyError::MissingStudyId)));
    assert!(matches!(read_config("token = "), Err(StudyError::ParseToml(_))));
}

#[test]
fn import_pgn_sends_expected_request() {
    let token = "secret";
    let study_id = "ABCDEFGH";
    let cfg = StudyConfig {
        token: token.to_string(),
        study_id: study_id.to_string(),
        base_url: "http://127.0.0.1:9".to_string(),
        default_orientation: Some("white".to_string()),
    };
    let payload = StudyChapterImport {
        study_id: None,
        name: Some("Line A".to_string()),
        pgn: "1. e4 e5 2. Nf3 Nc6 *".to_string(),
        orientation: None,
    };

    let request = cfg.import_request(&payload).expect("import succeeds");
    let form: Vec<(String, String)> =
        request.form.into_iter().map(|field| (field.name, field.value)).collect();
    let built = reqwest::blocking::Client::new()
        .post(request.url)
        .bearer_auth(&request.token)
        .header(reqwest::header::CONTENT_TYPE, "application/x-www-form-urlencoded")
        .form(&form)
        .build()
        .expect("client");

    assert_eq!(built.method(), reqwest::Method::POST);
    assert_eq!(built.url().path(), format!("/api/study/{study_id}/import-pgn"));
    assert_eq!(
        built.headers().get("authorization").unwrap().to_str().unwrap(),
        format!("Bearer {token}")
    );
    let body = String::from_utf8(built.body().unwrap().as_bytes().unwrap().to_vec()).unwrap();
    assert!(body.contains("pgn=1.+e4+e5+2.+Nf3"));
    assert!(body.contains("name=Line+A"));
    assert!(body.contains("orientation=white"));
}
