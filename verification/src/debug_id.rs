//! Names for the places of the user interface that a message or a control
//! belongs to.

use vstd::prelude::*;
use vstd::string::StringExecFns;
use iced::widget::Id;
use crate::utils::{decimal, push_decimal};

verus! {

/// `Id` of iced, the identifier of a widget. Nothing is known of what is
/// inside it.
#[verifier::external_type_specification]
#[verifier::external_body]
pub struct ExId(Id);

/// The identifier that the user interface makes of a text.
pub uninterp spec fn id_from_text(text: Seq<char>) -> Id;

/// `Id::from` of iced, for a `String`: the identifier of a widget that holds
/// the given text as its name. It is made of the text and of nothing else, so
/// equal texts give equal identifiers. That is all that is claimed here.
#[verifier::external_body]
fn widget_id(text: String) -> (id: Id)
    ensures
        id == id_from_text(text@),
{
    Id::from(text)
}

/// A place in the user interface: a message, a button or a text field.
#[derive(Debug, Clone, Copy, PartialEq, Eq, Structural)]
pub enum DebugId {
    InfoAudioLoaded,
    InfoSplitPointsSelected(usize),
    WarningNoAudioLoaded,
    WarningNoSplitPointFound,
    WarningNoSplitPointSelected,
    ErrorAudioDecoder,
    ErrorIO,
    ErrorParseFloat,
    ErrorNegativeDuration,
    ErrorAnalysis,
    ButtonOpen,
    ButtonPlay,
    ButtonPause,
    ButtonAnalyze,
    ButtonSplit,
    ButtonExport,
    ButtonDelete(u32),
    TextInputThreshold,
    TextInputDuration,
}

impl DebugId {
    /// The name of the variant.
    pub open spec fn name_text(self) -> Seq<char> {
        match self {
            DebugId::InfoAudioLoaded => "InfoAudioLoaded"@,
            DebugId::InfoSplitPointsSelected(_) => "InfoSplitPointsSelected"@,
            DebugId::WarningNoAudioLoaded => "WarningNoAudioLoaded"@,
            DebugId::WarningNoSplitPointFound => "WarningNoSplitPointFound"@,
            DebugId::WarningNoSplitPointSelected => "WarningNoSplitPointSelected"@,
            DebugId::ErrorAudioDecoder => "ErrorAudioDecoder"@,
            DebugId::ErrorIO => "ErrorIO"@,
            DebugId::ErrorParseFloat => "ErrorParseFloat"@,
            DebugId::ErrorNegativeDuration => "ErrorNegativeDuration"@,
            DebugId::ErrorAnalysis => "ErrorAnalysis"@,
            DebugId::ButtonOpen => "ButtonOpen"@,
            DebugId::ButtonPlay => "ButtonPlay"@,
            DebugId::ButtonPause => "ButtonPause"@,
            DebugId::ButtonAnalyze => "ButtonAnalyze"@,
            DebugId::ButtonSplit => "ButtonSplit"@,
            DebugId::ButtonExport => "ButtonExport"@,
            DebugId::ButtonDelete(_) => "ButtonDelete"@,
            DebugId::TextInputThreshold => "TextInputThreshold"@,
            DebugId::TextInputDuration => "TextInputDuration"@,
        }
    }

    /// The text by which the place is found: the name of the variant, and
    /// for a variant that carries a number a colon and that number.
    pub open spec fn id_text(self) -> Seq<char> {
        match self {
            DebugId::InfoSplitPointsSelected(v) => self.name_text() + seq![':'] + decimal(v as nat),
            DebugId::ButtonDelete(v) => self.name_text() + seq![':'] + decimal(v as nat),
            _ => self.name_text(),
        }
    }

    /// The name of the variant.
    pub fn name(self) -> (name: &'static str)
        ensures
            name@ == self.name_text(),
    {
        match self {
            DebugId::InfoAudioLoaded => "InfoAudioLoaded",
            DebugId::InfoSplitPointsSelected(_) => "InfoSplitPointsSelected",
            DebugId::WarningNoAudioLoaded => "WarningNoAudioLoaded",
            DebugId::WarningNoSplitPointFound => "WarningNoSplitPointFound",
            DebugId::WarningNoSplitPointSelected => "WarningNoSplitPointSelected",
            DebugId::ErrorAudioDecoder => "ErrorAudioDecoder",
            DebugId::ErrorIO => "ErrorIO",
            DebugId::ErrorParseFloat => "ErrorParseFloat",
            DebugId::ErrorNegativeDuration => "ErrorNegativeDuration",
            DebugId::ErrorAnalysis => "ErrorAnalysis",
            DebugId::ButtonOpen => "ButtonOpen",
            DebugId::ButtonPlay => "ButtonPlay",
            DebugId::ButtonPause => "ButtonPause",
            DebugId::ButtonAnalyze => "ButtonAnalyze",
            DebugId::ButtonSplit => "ButtonSplit",
            DebugId::ButtonExport => "ButtonExport",
            DebugId::ButtonDelete(_) => "ButtonDelete",
            DebugId::TextInputThreshold => "TextInputThreshold",
            DebugId::TextInputDuration => "TextInputDuration",
        }
    }

    /// The identifier by which the place is found in the user interface:
    /// the one that the user interface makes of the text of the place.
    pub fn id(self) -> (id: Id)
        ensures
            id == id_from_text(self.id_text()),
    {
        widget_id(self.id_string())
    }

    /// The text by which the place is found in the user interface.
    pub fn id_string(self) -> (text: String)
        ensures
            text@ == self.id_text(),
    {
        let mut text = String::from_str(self.name());
        match self {
            DebugId::InfoSplitPointsSelected(v) => {
                proof {
                    reveal_strlit(":");
                }
                text.append(":");
                push_decimal(&mut text, v as u64);
                assert(text@ =~= self.id_text());
            },
            DebugId::ButtonDelete(v) => {
                proof {
                    reveal_strlit(":");
                }
                text.append(":");
                push_decimal(&mut text, v as u64);
                assert(text@ =~= self.id_text());
            },
            _ => {},
        }
        text
    }
}

} // verus!
