//! Importing chapters into a remote study: the configuration, its checks, and
//! the request that an import sends.
//!
//! Nothing here touches the network. [`StudyConfig::import_request`] says what
//! is to be sent, and [`check_status`] judges the answer.

use crate::text::blank;
use crate::text::is_blank;
use crate::text::trim_end_matches;
use crate::text::without_trailing;
use vstd::prelude::*;
use vstd::string::StringExecFns;

verus! {

/// How to reach a study: the access token, the study, the server, and the
/// board orientation of chapters that name none.
#[derive(Debug, Clone)]
pub struct StudyConfig {
    pub token: String,
    pub study_id: String,
    pub base_url: String,
    pub default_orientation: Option<String>,
}

/// One chapter to import.
#[derive(Debug, Clone)]
pub struct StudyChapterImport {
    /// The study to import into, where it is not the configured one.
    pub study_id: Option<String>,
    pub name: Option<String>,
    pub pgn: String,
    pub orientation: Option<String>,
}

/// Why a configuration or an import was refused.
#[derive(Debug)]
pub enum StudyError {
    /// The configuration could not be read; the text says why.
    Io(String),
    /// The configuration is no valid TOML of the expected shape.
    ParseToml(String),
    /// The request could not be sent or answered.
    Http(String),
    /// The token is empty or blank.
    MissingToken,
    /// The study identifier is empty or blank.
    MissingStudyId,
    /// The server answered with this status, which is no success.
    HttpStatus(u16),
}

/// One field of a form.
#[derive(Debug)]
pub struct FormField {
    pub name: String,
    pub value: String,
}

impl DeepView for FormField {
    type V = (Seq<char>, Seq<char>);

    open spec fn deep_view(&self) -> (Seq<char>, Seq<char>) {
        (self.name@, self.value@)
    }
}

/// What an import sends: a POST to `url`, authorised by `token` as a bearer
/// token, with `form` as its URL-encoded body.
#[derive(Debug)]
pub struct ImportRequest {
    pub url: String,
    pub token: String,
    pub form: Vec<FormField>,
}

/// The text of an optional string.
pub open spec fn text_of(s: Option<String>) -> Option<Seq<char>> {
    match s {
        Some(s) => Some(s@),
        None => None,
    }
}

/// The study that an import goes to: the chapter's own, or else the
/// configured one.
pub open spec fn target_study(config: StudyConfig, chapter: StudyChapterImport) -> Seq<char> {
    match chapter.study_id {
        Some(id) => id@,
        None => config.study_id@,
    }
}

/// The address that an import of `chapter` is posted to.
pub open spec fn import_url(config: StudyConfig, chapter: StudyChapterImport) -> Seq<char> {
    without_trailing(config.base_url@, '/') + "/api/study/"@ + target_study(config, chapter)
        + "/import-pgn"@
}

/// The orientation that an import of `chapter` asks for: the chapter's own,
/// or else the configured default.
pub open spec fn import_orientation(
    config: StudyConfig,
    chapter: StudyChapterImport,
) -> Option<Seq<char>> {
    match chapter.orientation {
        Some(o) => Some(o@),
        None => text_of(config.default_orientation),
    }
}

/// The form of an import of `chapter`: the game record, then the name and
/// the orientation where there is one.
pub open spec fn import_form(config: StudyConfig, chapter: StudyChapterImport) -> Seq<
    (Seq<char>, Seq<char>),
> {
    let pgn = seq![("pgn"@, chapter.pgn@)];
    let name = match chapter.name {
        Some(name) => seq![("name"@, name@)],
        None => Seq::empty(),
    };
    let orientation = match import_orientation(config, chapter) {
        Some(o) => seq![("orientation"@, o)],
        None => Seq::empty(),
    };
    pgn + name + orientation
}

/// The server that a configuration names when it names none.
pub fn default_base_url() -> (out: String)
    ensures
        out@ == "https://lichess.org"@,
{
    String::from_str("https://lichess.org")
}

/// Whether a status code reports success: 200 to 299.
pub open spec fn is_success(status: u16) -> bool {
    200 <= status <= 299
}

/// Judges the status of the server's answer.
pub fn check_status(status: u16) -> (out: Result<(), StudyError>)
    ensures
        is_success(status) ==> out is Ok,
        !is_success(status) ==> out == Err::<(), StudyError>(StudyError::HttpStatus(status)),
{
    if 200 <= status && status <= 299 {
        Ok(())
    } else {
        Err(StudyError::HttpStatus(status))
    }
}

impl StudyConfig {
    /// Accepts a configuration as read, unless its token or its study
    /// identifier is blank. The token is looked at first.
    pub fn checked(self) -> (out: Result<StudyConfig, StudyError>)
        ensures
            is_blank(self.token@) ==> out == Err::<StudyConfig, StudyError>(
                StudyError::MissingToken,
            ),
            !is_blank(self.token@) && is_blank(self.study_id@) ==> out == Err::<
                StudyConfig,
                StudyError,
            >(StudyError::MissingStudyId),
            !is_blank(self.token@) && !is_blank(self.study_id@) ==> out == Ok::<
                StudyConfig,
                StudyError,
            >(self),
    {
        if blank(self.token.as_str()) {
            return Err(StudyError::MissingToken);
        }
        if blank(self.study_id.as_str()) {
            return Err(StudyError::MissingStudyId);
        }
        Ok(self)
    }

    /// What importing `chapter` sends, unless the study it goes to is blank.
    pub fn import_request(&self, chapter: &StudyChapterImport) -> (out: Result<
        ImportRequest,
        StudyError,
    >)
        ensures
            is_blank(target_study(*self, *chapter)) ==> out == Err::<ImportRequest, StudyError>(
                StudyError::MissingStudyId,
            ),
            !is_blank(target_study(*self, *chapter)) ==> (out matches Ok(request) && request.url@
                == import_url(*self, *chapter) && request.token@ == self.token@
                && request.form.deep_view() == import_form(*self, *chapter)),
    {
        let study_id: &str = match &chapter.study_id {
            Some(id) => id.as_str(),
            None => self.study_id.as_str(),
        };
        if blank(study_id) {
            return Err(StudyError::MissingStudyId);
        }
        let mut url = String::from_str(trim_end_matches(self.base_url.as_str(), '/'));
        url.append("/api/study/");
        url.append(study_id);
        url.append("/import-pgn");
        let mut form: Vec<FormField> = Vec::new();
        form.push(FormField { name: String::from_str("pgn"), value: chapter.pgn.clone() });
        match &chapter.name {
            Some(name) => {
                form.push(FormField { name: String::from_str("name"), value: name.clone() });
            },
            None => {},
        }
        let orientation: Option<&String> = match &chapter.orientation {
            Some(o) => Some(o),
            None => match &self.default_orientation {
                Some(o) => Some(o),
                None => None,
            },
        };
        match orientation {
            Some(o) => {
                form.push(FormField { name: String::from_str("orientation"), value: o.clone() });
            },
            None => {},
        }
        assert(form.deep_view() =~= import_form(*self, *chapter));
        Ok(ImportRequest { url, token: self.token.clone(), form })
    }
}

} // verus!
