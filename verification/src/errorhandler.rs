//! Error reports: the reason and hint of each kind of error, and the boxed
//! message that is written to standard error.
use vstd::prelude::*;
use crate::text::{push_str, same_text};

verus! {

#[derive(Clone, Copy, PartialEq, Eq, Structural, Debug)]
pub enum InvalidTemplate {
    Lowercase,
    NotRenderable,
    NoPresets,
    PresetDoesntExist,
}

#[derive(Clone, Copy, PartialEq, Eq, Structural, Debug)]
pub enum ErrorReason {
    NoReason,
    InvalidTemplate(InvalidTemplate),
}

#[derive(Clone, Copy, PartialEq, Eq, Structural, Debug)]
pub enum ErrorDescription {
    MissingCharacter,
    InvalidType,
    UnclosedString,
    InvalidTemplate,
}

#[derive(Clone, Copy, PartialEq, Eq, Structural, Debug)]
pub enum ErrorType {
    Syntax,
    Grammar,
    Fatal,
}

/// The line that explains a reason, and the hint that goes with it. Without a
/// reason, a hint that was given is labelled as one.
pub open spec fn reason_text(reason: ErrorReason, hint: Seq<char>) -> (Seq<char>, Seq<char>) {
    match reason {
        ErrorReason::InvalidTemplate(InvalidTemplate::Lowercase) => (
            "\n│   REASON: Template keywords must be uppercase."@,
            "\n│ HINT : Capitalize all language defined template keywords."@,
        ),
        ErrorReason::InvalidTemplate(InvalidTemplate::NotRenderable) => (
            "\n│   REASON: This is not a renderable template."@,
            "\n│ HINT : Check the documentation for a list of renderable template keywords."@,
        ),
        ErrorReason::InvalidTemplate(InvalidTemplate::NoPresets) => (
            "\n│   REASON: No PRESETs were found in the engine's earData.json file."@,
            "\n│ HINT : Before trying to render a preset, you must create that preset with the \"PRESET:\" template's child template \"NEW_PRESETS:\"."@,
        ),
        ErrorReason::InvalidTemplate(InvalidTemplate::PresetDoesntExist) => (
            "\n│   REASON: The PRESET in your query does not exist in the engine's earData.json file."@,
            "\n│ HINT : Before trying to render a preset, you must create that preset with the \"PRESET:\" template's child template \"NEW_PRESETS:\"."@,
        ),
        ErrorReason::NoReason => (
            Seq::empty(),
            if hint.len() > 0 {
                "\n│ HINT : "@ + hint
            } else {
                hint
            },
        ),
    }
}

/// Returns the reason line and replaces `hint` by the hint of the reason.
pub fn handle_error_reason(reason: ErrorReason, hint: &mut String) -> (r: String)
    ensures
        (r@, final(hint)@) == reason_text(reason, old(hint)@),
{
    let (ret, new_hint) = match reason {
        ErrorReason::InvalidTemplate(InvalidTemplate::Lowercase) => (
            "\n│   REASON: Template keywords must be uppercase.".to_owned(),
            "\n│ HINT : Capitalize all language defined template keywords.".to_owned(),
        ),
        ErrorReason::InvalidTemplate(InvalidTemplate::NotRenderable) => (
            "\n│   REASON: This is not a renderable template.".to_owned(),
            "\n│ HINT : Check the documentation for a list of renderable template keywords.".to_owned(),
        ),
        ErrorReason::InvalidTemplate(InvalidTemplate::NoPresets) => (
            "\n│   REASON: No PRESETs were found in the engine's earData.json file.".to_owned(),
            "\n│ HINT : Before trying to render a preset, you must create that preset with the \"PRESET:\" template's child template \"NEW_PRESETS:\".".to_owned(),
        ),
        ErrorReason::InvalidTemplate(InvalidTemplate::PresetDoesntExist) => (
            "\n│   REASON: The PRESET in your query does not exist in the engine's earData.json file.".to_owned(),
            "\n│ HINT : Before trying to render a preset, you must create that preset with the \"PRESET:\" template's child template \"NEW_PRESETS:\".".to_owned(),
        ),
        ErrorReason::NoReason => {
            proof {
                reveal_strlit("");
            }
            if !same_text(hint.as_str(), "") {
                proof {
                    if hint@.len() == 0 {
                        assert(hint@ =~= ""@);
                    }
                }
                let mut h = "\n│ HINT : ".to_owned();
                push_str(&mut h, hint.as_str());
                (String::new(), h)
            } else {
                (String::new(), hint.clone())
            }
        },
    };
    *hint = new_hint;
    ret
}

/// An error to report: what went wrong, why, the values that the message
/// quotes, a suggestion, how serious it is, and where it happened.
pub struct ErrorReport {
    pub description: ErrorDescription,
    pub reason: ErrorReason,
    pub details: Vec<String>,
    pub suggestion: String,
    pub error_type: ErrorType,
    pub line: String,
    pub column: String,
    pub file: String,
}

pub struct ErrorReportModel {
    pub description: ErrorDescription,
    pub reason: ErrorReason,
    pub details: Seq<Seq<char>>,
    pub suggestion: Seq<char>,
    pub error_type: ErrorType,
    pub line: Seq<char>,
    pub column: Seq<char>,
    pub file: Seq<char>,
}

impl View for ErrorReport {
    type V = ErrorReportModel;

    open spec fn view(&self) -> ErrorReportModel {
        ErrorReportModel {
            description: self.description,
            reason: self.reason,
            details: self.details@.map_values(|s: String| s@),
            suggestion: self.suggestion@,
            error_type: self.error_type,
            line: self.line@,
            column: self.column@,
            file: self.file@,
        }
    }
}

/// How many quoted values a description needs.
pub open spec fn details_needed(d: ErrorDescription) -> nat {
    match d {
        ErrorDescription::MissingCharacter => 2,
        _ => 1,
    }
}

/// The description line of an error, ending with the reason line.
pub open spec fn description_text(d: ErrorDescription, details: Seq<Seq<char>>, reason: Seq<char>) -> Seq<char> {
    match d {
        ErrorDescription::MissingCharacter => "Expected character: '"@ + details[0] + "'\n│   AT: "@ + details[1] + reason,
        ErrorDescription::InvalidType => "Type is invalid: \""@ + details[0] + "\""@ + reason,
        ErrorDescription::UnclosedString => "Unclosed string: \""@ + details[0] + "..."@ + reason,
        ErrorDescription::InvalidTemplate => "The Template provided is invalid:\n│\n│   TEMPLATE: \""@ + details[0] + "\"\n│"@ + reason,
    }
}

pub open spec fn kind_text(t: ErrorType) -> Seq<char> {
    match t {
        ErrorType::Grammar => "Grammar"@,
        ErrorType::Syntax => "Syntax"@,
        ErrorType::Fatal => "FATAL"@,
    }
}

/// The boxed message that reports an error.
pub open spec fn error_text(r: ErrorReportModel) -> Seq<char> {
    let (reason, hint) = reason_text(r.reason, r.suggestion);
    let description = description_text(r.description, r.details, reason);
    "\n┍━━━━━━━━━━━━━━━━━━━━━━━━━━━━━━━━╍┅┈┈\n▼ ERROR ( "@ + kind_text(r.error_type) + " ) : "@ + r.line + " | "@ + r.column + " !\n● ━⚋━⚋━⚋━⚋━⚋━⚋━⚋━⚋━⚋━⚋━⚋━⚋━⚋━⚋━⚋━╍┅┈┈\n│  ⟲ "@ + r.file + "\n│\n│ ▻  "@
        + description + "\n│"@ + hint + "\n┕━━━━━━━━━━━━━━━━━━━━━━━━━━━━━━━━╍┅┈┈\n"@
}

/// The message that reports `report` (what the program writes to standard
/// error; it exits after a fatal error).
pub fn error_message(report: &ErrorReport) -> (r: String)
    requires
        report.details@.len() >= details_needed(report.description),
    ensures
        r@ == error_text(report@),
{
    let mut hint = report.suggestion.clone();
    let reason = handle_error_reason(report.reason, &mut hint);
    let d = &report.details;
    let mut description = String::new();
    match report.description {
        ErrorDescription::MissingCharacter => {
            push_str(&mut description, "Expected character: '");
            push_str(&mut description, d[0].as_str());
            push_str(&mut description, "'\n│   AT: ");
            push_str(&mut description, d[1].as_str());
        },
        ErrorDescription::InvalidType => {
            push_str(&mut description, "Type is invalid: \"");
            push_str(&mut description, d[0].as_str());
            push_str(&mut description, "\"");
        },
        ErrorDescription::UnclosedString => {
            push_str(&mut description, "Unclosed string: \"");
            push_str(&mut description, d[0].as_str());
            push_str(&mut description, "...");
        },
        ErrorDescription::InvalidTemplate => {
            push_str(&mut description, "The Template provided is invalid:\n│\n│   TEMPLATE: \"");
            push_str(&mut description, d[0].as_str());
            push_str(&mut description, "\"\n│");
        },
    }
    push_str(&mut description, reason.as_str());
    proof {
        assert(report@.details[0] == d@[0]@);
        assert(report.description == ErrorDescription::MissingCharacter ==> report@.details[1] == d@[1]@);
        assert(description@ =~= description_text(report.description, report@.details, reason@));
    }
    let kind = match report.error_type {
        ErrorType::Grammar => "Grammar",
        ErrorType::Syntax => "Syntax",
        ErrorType::Fatal => "FATAL",
    };
    let mut s = String::new();
    push_str(&mut s, "\n┍━━━━━━━━━━━━━━━━━━━━━━━━━━━━━━━━╍┅┈┈\n▼ ERROR ( ");
    push_str(&mut s, kind);
    push_str(&mut s, " ) : ");
    push_str(&mut s, report.line.as_str());
    push_str(&mut s, " | ");
    push_str(&mut s, report.column.as_str());
    push_str(&mut s, " !\n● ━⚋━⚋━⚋━⚋━⚋━⚋━⚋━⚋━⚋━⚋━⚋━⚋━⚋━⚋━⚋━╍┅┈┈\n│  ⟲ ");
    push_str(&mut s, report.file.as_str());
    push_str(&mut s, "\n│\n│ ▻  ");
    push_str(&mut s, description.as_str());
    push_str(&mut s, "\n│");
    push_str(&mut s, hint.as_str());
    push_str(&mut s, "\n┕━━━━━━━━━━━━━━━━━━━━━━━━━━━━━━━━╍┅┈┈\n");
    proof {
        assert(s@ =~= error_text(report@));
    }
    s
}

} // verus!
