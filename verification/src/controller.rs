//! The state of the application and what it does when something happens.
//!
//! The application around this library shows the state, performs the action
//! that each step returns, and hands back what came of it as the next
//! message.

use vstd::prelude::*;
use vstd::string::StringExecFns;
use vstd::utf8::encode_utf8;
use crate::audio::{at_end, distributed, seek_target, tiles, Audio, AudioView};
use crate::audio::{lemma_distributed_keeps_wf};
use crate::debug_id::DebugId;
use crate::error::{Error, ErrorKind};
use crate::ordered::{ascending_seq, lemma_ascending_seq, ordered_insert, strictly_ascending};
use crate::decimal::{decimal_nanos, parse_decimal};
use crate::user_info::info::{split_points_detected, split_points_detected_text, AUDIO_LOADED};
use crate::user_info::warning::{NO_AUDIO_LOADED, NO_SPLIT_POINTS_FOUND, NO_SPLIT_POINT_SELECTED};
use crate::user_info::{UserInfo, UserInfoView};

verus! {

/// What can happen.
pub enum Message {
    /// The user asks for an audio file to open.
    OpenAudioFileDialog,
    /// The user asks for a folder to export to.
    OpenExportDialog,
    /// Time has passed; playback is at this position.
    Tick(u64),
    /// The action of a tick has been performed; playback is now at this
    /// position.
    CheckEnd(u64),
    /// The user has chosen an audio file, or none.
    AudioFilePathLoaded(Option<String>),
    /// The user has chosen a folder to export to, or none.
    ExportPathLoaded(Option<String>),
    /// An audio file has been opened, or could not be.
    AudioLoaded(Result<Audio, Error>),
    /// The user has moved the cursor of the span with this id to this
    /// position.
    AudioSpanPositionUpdate(u32, u64),
    Pause,
    Play,
    Split,
    DeleteAudioSpan(u32),
    SpanTextUpdate(u32, String),
    /// A file has been dropped on the window.
    FileDropped(String),
    Analyze,
    /// The analysis has ended, with these candidate cut points or with an
    /// error.
    Analyzed(Result<Vec<u64>, Error>),
    /// The user has clicked on the cut point at this time.
    ClickSplice(u64),
    UpdateDuration(String),
    UpdateThreshold(String),
    /// The export has ended.
    AudioSaved(Result<(), Error>),
}

impl Message {
    /// A timeline that arrives with a message is well formed.
    pub open spec fn wf(self) -> bool {
        match self {
            Message::AudioLoaded(Ok(audio)) => audio.wf(),
            _ => true,
        }
    }
}

/// What the application has to do after a step.
pub enum Action {
    Nothing,
    /// Ask the user for an audio file, starting near the file that was
    /// opened last.
    OpenAudioFileDialog(Option<String>),
    /// Ask the user for a folder, starting at the folder that was exported
    /// to last.
    OpenExportDialog(Option<String>),
    /// Open the audio file at this path.
    LoadAudio(String),
    /// Write each span of the timeline, cut out of the file at `source`, to
    /// the folder `folder`.
    SaveAudio { source: String, folder: String },
    /// Move playback to this position.
    Seek(u64),
    Play,
    Pause,
    /// Look for silences in the file at `path`: stretches of at least
    /// `min_silence` nanoseconds below `threshold` billionths of a decibel.
    Analyze { path: String, threshold: i64, min_silence: u64 },
}

/// An action, as mathematical values.
pub enum ActionView {
    Nothing,
    OpenAudioFileDialog(Option<Seq<char>>),
    OpenExportDialog(Option<Seq<char>>),
    LoadAudio(Seq<char>),
    SaveAudio { source: Seq<char>, folder: Seq<char> },
    Seek(u64),
    Play,
    Pause,
    Analyze { path: Seq<char>, threshold: i64, min_silence: u64 },
}

/// The text of a string that may be missing.
pub open spec fn opt_text(text: Option<String>) -> Option<Seq<char>> {
    match text {
        Some(t) => Some(t@),
        None => None,
    }
}

/// The text of a borrowed string that may be missing.
pub open spec fn opt_ref_text(text: Option<&String>) -> Option<Seq<char>> {
    match text {
        Some(t) => Some(t@),
        None => None,
    }
}

impl View for Action {
    type V = ActionView;

    open spec fn view(&self) -> ActionView {
        match self {
            Action::Nothing => ActionView::Nothing,
            Action::OpenAudioFileDialog(near) => ActionView::OpenAudioFileDialog(opt_text(*near)),
            Action::OpenExportDialog(near) => ActionView::OpenExportDialog(opt_text(*near)),
            Action::LoadAudio(path) => ActionView::LoadAudio(path@),
            Action::SaveAudio { source, folder } => ActionView::SaveAudio {
                source: source@,
                folder: folder@,
            },
            Action::Seek(to) => ActionView::Seek(*to),
            Action::Play => ActionView::Play,
            Action::Pause => ActionView::Pause,
            Action::Analyze { path, threshold, min_silence } => ActionView::Analyze {
                path: path@,
                threshold: *threshold,
                min_silence: *min_silence,
            },
        }
    }
}

/// The state of the application, as mathematical values.
pub struct AudioSplitView {
    pub audio: Option<AudioView>,
    pub is_playing: bool,
    pub import_path: Option<Seq<char>>,
    pub export_path: Option<Seq<char>>,
    pub threshold: Seq<char>,
    pub duration: Seq<char>,
    pub user_info: UserInfoView,
}

impl AudioSplitView {
    /// The state in which the application starts.
    pub open spec fn initial() -> AudioSplitView {
        AudioSplitView {
            audio: None,
            is_playing: false,
            import_path: None,
            export_path: None,
            threshold: "-50.0"@,
            duration: "0.3"@,
            user_info: UserInfoView::Empty,
        }
    }

    /// The timeline, where there is one, is well formed.
    pub open spec fn wf(self) -> bool {
        match self.audio {
            Some(audio) => audio.wf(),
            None => true,
        }
    }

    /// The timeline, where there is one, has no gap.
    pub open spec fn tiles(self) -> bool {
        match self.audio {
            Some(audio) => tiles(audio.spans),
            None => true,
        }
    }

    /// The state with the user told that no audio file is loaded.
    pub open spec fn warned_no_audio(self) -> AudioSplitView {
        AudioSplitView {
            user_info: UserInfoView::Waring(NO_AUDIO_LOADED@, DebugId::WarningNoAudioLoaded),
            ..self
        }
    }

    /// The state with the user shown an error.
    pub open spec fn failed(self, error: (ErrorKind, DebugId)) -> AudioSplitView {
        AudioSplitView { user_info: UserInfoView::Error(error), ..self }
    }

    /// The state with another timeline in place of the one it has.
    pub open spec fn with_audio(self, audio: AudioView) -> AudioSplitView {
        AudioSplitView { audio: Some(audio), ..self }
    }

    /// What a request for an analysis leads to. Without an audio file the
    /// user is warned. The threshold and the shortest silence are read from
    /// what the user typed: a text that is no decimal number is an error,
    /// and so is a negative length.
    pub open spec fn analyze(self) -> (AudioSplitView, ActionView) {
        if self.audio is None || self.import_path is None {
            (self.warned_no_audio(), ActionView::Nothing)
        } else {
            match (
                decimal_nanos(encode_utf8(self.threshold)),
                decimal_nanos(encode_utf8(self.duration)),
            ) {
                (Some(threshold), Some(duration)) => if duration < 0 {
                    (
                        self.failed(
                            (ErrorKind::NegativeDuration, ErrorKind::NegativeDuration.place()),
                        ),
                        ActionView::Nothing,
                    )
                } else {
                    (
                        self,
                        ActionView::Analyze {
                            path: self.import_path.unwrap(),
                            threshold: threshold as i64,
                            min_silence: duration as u64,
                        },
                    )
                },
                _ => (
                    self.failed((ErrorKind::Parsing, ErrorKind::Parsing.place())),
                    ActionView::Nothing,
                ),
            }
        }
    }

    /// What the end of an analysis leads to. The candidates are handed out
    /// to the spans as an ordered set, and the user is told how many were
    /// found, or warned that there were none.
    pub open spec fn analyzed(self, found: Seq<u64>) -> AudioSplitView {
        match self.audio {
            Some(audio) => AudioSplitView {
                audio: Some(
                    AudioView {
                        spans: distributed(audio.spans, ascending_seq(found.to_set())),
                        ..audio
                    },
                ),
                user_info: if found.len() == 0 {
                    UserInfoView::Waring(NO_SPLIT_POINTS_FOUND@, DebugId::WarningNoSplitPointFound)
                } else {
                    UserInfoView::Info(
                        split_points_detected_text(found.len() as usize),
                        DebugId::InfoSplitPointsSelected(found.len() as usize),
                    )
                },
                ..self
            },
            None => self,
        }
    }

    /// What a request to split leads to. Without an audio file, or with no
    /// cut point selected, the user is warned. Where the counter of ids has
    /// no room for the new spans, nothing happens.
    pub open spec fn split(self) -> AudioSplitView {
        match self.audio {
            None => self.warned_no_audio(),
            Some(audio) => if !audio.any_selected() {
                AudioSplitView {
                    user_info: UserInfoView::Waring(
                        NO_SPLIT_POINT_SELECTED@,
                        DebugId::WarningNoSplitPointSelected,
                    ),
                    ..self
                }
            } else if audio.index_counter + audio.selection().len() > u32::MAX {
                self
            } else {
                self.with_audio(audio.split_all(audio.selection()))
            },
        }
    }

    /// The state after `message`, and the action that goes with the step.
    pub open spec fn step(self, message: Message) -> (AudioSplitView, ActionView) {
        match message {
            Message::OpenAudioFileDialog => (self, ActionView::OpenAudioFileDialog(self.import_path)),
            Message::OpenExportDialog => if self.audio is None {
                (self.warned_no_audio(), ActionView::Nothing)
            } else {
                (self, ActionView::OpenExportDialog(self.export_path))
            },
            Message::Tick(pos) => match self.audio {
                Some(audio) => (
                    self.with_audio(audio.cursor_at(pos)),
                    match seek_target(audio.spans, pos) {
                        Some(to) => ActionView::Seek(to),
                        None => ActionView::Nothing,
                    },
                ),
                None => (self, ActionView::Nothing),
            },
            Message::CheckEnd(pos) => match self.audio {
                Some(audio) => if at_end(audio.spans, pos) {
                    (self.with_audio(audio.positioned(0, 0)), ActionView::Seek(0))
                } else {
                    (self, ActionView::Nothing)
                },
                None => (self, ActionView::Nothing),
            },
            Message::AudioFilePathLoaded(Some(path)) => (
                AudioSplitView { import_path: Some(path@), ..self },
                ActionView::LoadAudio(path@),
            ),
            Message::AudioFilePathLoaded(None) => (self, ActionView::Nothing),
            Message::ExportPathLoaded(Some(path)) => if self.audio is Some && self.import_path is Some {
                (
                    AudioSplitView { export_path: Some(path@), ..self },
                    ActionView::SaveAudio { source: self.import_path.unwrap(), folder: path@ },
                )
            } else {
                (self, ActionView::Nothing)
            },
            Message::ExportPathLoaded(None) => (self, ActionView::Nothing),
            Message::AudioLoaded(Ok(audio)) => (
                AudioSplitView {
                    audio: Some(audio@),
                    is_playing: true,
                    user_info: UserInfoView::Info(AUDIO_LOADED@, DebugId::InfoAudioLoaded),
                    ..self
                },
                ActionView::Nothing,
            ),
            Message::AudioLoaded(Err(error)) => (self.failed(error@), ActionView::Nothing),
            Message::AudioSpanPositionUpdate(id, pos) => match self.audio {
                Some(audio) => (self.with_audio(audio.positioned(id, pos)), ActionView::Seek(pos)),
                None => (self, ActionView::Nothing),
            },
            Message::Pause => if self.audio is None {
                (self.warned_no_audio(), ActionView::Nothing)
            } else {
                (AudioSplitView { is_playing: false, ..self }, ActionView::Pause)
            },
            Message::Play => if self.audio is None {
                (self.warned_no_audio(), ActionView::Nothing)
            } else {
                (AudioSplitView { is_playing: true, ..self }, ActionView::Play)
            },
            Message::Split => (self.split(), ActionView::Nothing),
            Message::DeleteAudioSpan(id) => match self.audio {
                Some(audio) => (self.with_audio(audio.deleted(id)), ActionView::Nothing),
                None => (self, ActionView::Nothing),
            },
            Message::SpanTextUpdate(id, text) => match self.audio {
                Some(audio) => (self.with_audio(audio.renamed(id, text@)), ActionView::Nothing),
                None => (self, ActionView::Nothing),
            },
            Message::FileDropped(path) => (
                AudioSplitView { import_path: Some(path@), ..self },
                ActionView::LoadAudio(path@),
            ),
            Message::Analyze => self.analyze(),
            Message::Analyzed(Ok(found)) => (self.analyzed(found@), ActionView::Nothing),
            Message::Analyzed(Err(error)) => (self.failed(error@), ActionView::Nothing),
            Message::ClickSplice(t) => match self.audio {
                Some(audio) => (self.with_audio(audio.toggled(t)), ActionView::Nothing),
                None => (self, ActionView::Nothing),
            },
            Message::UpdateDuration(text) => (
                AudioSplitView { duration: text@, ..self },
                ActionView::Nothing,
            ),
            Message::UpdateThreshold(text) => (
                AudioSplitView { threshold: text@, ..self },
                ActionView::Nothing,
            ),
            Message::AudioSaved(Ok(_)) => (self, ActionView::Nothing),
            Message::AudioSaved(Err(error)) => (self.failed(error@), ActionView::Nothing),
        }
    }
}

/// The state of the application: the timeline of the audio file that is
/// loaded, whether it plays, where files were opened and exported last, what
/// the user typed as settings of the analysis, and the message on show.
pub struct AudioSplit {
    audio: Option<Audio>,
    is_playing: bool,
    import_path: Option<String>,
    export_path: Option<String>,
    threshold: String,
    duration: String,
    user_info: UserInfo,
}

impl View for AudioSplit {
    type V = AudioSplitView;

    closed spec fn view(&self) -> AudioSplitView {
        AudioSplitView {
            audio: match self.audio {
                Some(audio) => Some(audio@),
                None => None,
            },
            is_playing: self.is_playing,
            import_path: opt_text(self.import_path),
            export_path: opt_text(self.export_path),
            threshold: self.threshold@,
            duration: self.duration@,
            user_info: self.user_info@,
        }
    }
}

fn clone_text(text: &Option<String>) -> (copy: Option<String>)
    ensures
        opt_text(copy) == opt_text(*text),
{
    match text {
        Some(t) => Some(t.clone()),
        None => None,
    }
}

fn warning_no_audio() -> (info: UserInfo)
    ensures
        info@ == UserInfoView::Waring(NO_AUDIO_LOADED@, DebugId::WarningNoAudioLoaded),
{
    UserInfo::Waring(String::from_str(NO_AUDIO_LOADED), DebugId::WarningNoAudioLoaded)
}

/// The candidates as an ordered set: in ascending order, each once.
fn ordered_set(found: &Vec<u64>) -> (points: Vec<u64>)
    ensures
        points@ == ascending_seq(found@.to_set()),
        strictly_ascending(points@),
{
    let mut points: Vec<u64> = Vec::new();
    let mut i: usize = 0;
    assert(points@.to_set() =~= found@.take(0).to_set());
    while i < found.len()
        invariant
            i <= found@.len(),
            strictly_ascending(points@),
            points@.to_set() == found@.take(i as int).to_set(),
        decreases found@.len() - i,
    {
        ordered_insert(&mut points, found[i]);
        proof {
            let shorter = found@.take(i as int);
            let longer = found@.take(i + 1);
            assert(longer =~= shorter.push(found@[i as int]));
            assert forall|x: u64| longer.to_set().contains(x) <==> shorter.to_set().insert(
                found@[i as int],
            ).contains(x) by {
                if longer.contains(x) {
                    let r = choose|r: int| 0 <= r < longer.len() && longer[r] == x;
                    if r < i {
                        assert(shorter[r] == x);
                    }
                }
                if shorter.contains(x) {
                    let r = choose|r: int| 0 <= r < shorter.len() && shorter[r] == x;
                    assert(longer[r] == x);
                }
                assert(longer[i as int] == found@[i as int]);
            }
            assert(longer.to_set() =~= shorter.to_set().insert(found@[i as int]));
        }
        i += 1;
    }
    proof {
        assert(found@.take(found@.len() as int) =~= found@);
        lemma_ascending_seq(points@);
    }
    points
}

impl AudioSplit {
    /// The timeline, where there is one, is well formed.
    pub closed spec fn wf(&self) -> bool {
        match self.audio {
            Some(audio) => audio.wf(),
            None => true,
        }
    }

    /// The state in which the application starts: no audio file, nothing
    /// playing, a threshold of -50 decibels and a shortest silence of 0.3
    /// seconds.
    pub fn init() -> (state: Self)
        ensures
            state.wf(),
            state@ == AudioSplitView::initial(),
    {
        AudioSplit {
            audio: None,
            is_playing: false,
            import_path: None,
            export_path: None,
            threshold: String::from_str("-50.0"),
            duration: String::from_str("0.3"),
            user_info: UserInfo::Empty,
        }
    }

    /// The timeline of the audio file that is loaded.
    pub fn audio(&self) -> (audio: Option<&Audio>)
        ensures
            match audio {
                Some(a) => self@.audio == Some(a@) && (self.wf() ==> a.wf()),
                None => self@.audio is None,
            },
    {
        self.audio.as_ref()
    }

    pub fn is_playing(&self) -> (playing: bool)
        ensures
            playing == self@.is_playing,
    {
        self.is_playing
    }

    /// The path of the audio file that was chosen last.
    pub fn import_path(&self) -> (path: Option<&String>)
        ensures
            opt_ref_text(path) == self@.import_path,
    {
        self.import_path.as_ref()
    }

    /// The folder that was exported to last.
    pub fn export_path(&self) -> (path: Option<&String>)
        ensures
            opt_ref_text(path) == self@.export_path,
    {
        self.export_path.as_ref()
    }

    /// What the user typed as the threshold.
    pub fn threshold(&self) -> (text: &str)
        ensures
            text@ == self@.threshold,
    {
        self.threshold.as_str()
    }

    /// What the user typed as the shortest silence.
    pub fn duration(&self) -> (text: &str)
        ensures
            text@ == self@.duration,
    {
        self.duration.as_str()
    }

    /// The message that is shown to the user.
    pub fn user_info(&self) -> (info: &UserInfo)
        ensures
            info@ == self@.user_info,
    {
        &self.user_info
    }

    fn analyze(&mut self) -> (action: Action)
        requires
            old(self).wf(),
        ensures
            final(self).wf(),
            (final(self)@, action@) == old(self)@.analyze(),
    {
        if self.audio.is_none() || self.import_path.is_none() {
            self.user_info = warning_no_audio();
            return Action::Nothing;
        }
        let threshold = parse_decimal(self.threshold.as_str().as_bytes());
        let duration = parse_decimal(self.duration.as_str().as_bytes());
        match (threshold, duration) {
            (Some(threshold), Some(duration)) => {
                if duration < 0 {
                    self.user_info = UserInfo::Error(Error::from_kind(ErrorKind::NegativeDuration));
                    Action::Nothing
                } else {
                    match &self.import_path {
                        Some(path) => Action::Analyze {
                            path: path.clone(),
                            threshold,
                            min_silence: duration as u64,
                        },
                        None => Action::Nothing,
                    }
                }
            },
            _ => {
                self.user_info = UserInfo::Error(Error::from_kind(ErrorKind::Parsing));
                Action::Nothing
            },
        }
    }

    fn analyzed(&mut self, found: Vec<u64>)
        requires
            old(self).wf(),
        ensures
            final(self).wf(),
            final(self)@ == old(self)@.analyzed(found@),
            old(self)@.tiles() ==> final(self)@.tiles(),
    {
        match &mut self.audio {
            Some(audio) => {
                let count = found.len();
                let points = ordered_set(&found);
                proof {
                    lemma_distributed_keeps_wf(audio@, points@);
                }
                Audio::set_split_points(audio.spans_mut(), points);
                if count == 0 {
                    self.user_info = UserInfo::Waring(
                        String::from_str(NO_SPLIT_POINTS_FOUND),
                        DebugId::WarningNoSplitPointFound,
                    );
                } else {
                    self.user_info = UserInfo::Info(
                        split_points_detected(count),
                        DebugId::InfoSplitPointsSelected(count),
                    );
                }
            },
            None => {},
        }
    }

    fn split(&mut self)
        requires
            old(self).wf(),
        ensures
            final(self).wf(),
            final(self)@ == old(self)@.split(),
            old(self)@.tiles() ==> final(self)@.tiles(),
    {
        match &mut self.audio {
            None => {
                self.user_info = warning_no_audio();
            },
            Some(audio) => {
                if !audio.split_points_selected() {
                    self.user_info = UserInfo::Waring(
                        String::from_str(NO_SPLIT_POINT_SELECTED),
                        DebugId::WarningNoSplitPointSelected,
                    );
                } else {
                    let count = audio.selected_points().len();
                    let room = u32::MAX - audio.index_counter();
                    if count <= room as usize {
                        audio.split();
                    }
                }
            },
        }
    }

    /// Takes one step: changes the state as `message` asks and returns what
    /// the application has to do.
    ///
    /// Every message but the deletion of a span and the arrival of another
    /// timeline leaves a timeline without gaps without gaps.
    pub fn update(&mut self, message: Message) -> (action: Action)
        requires
            old(self).wf(),
            message.wf(),
        ensures
            final(self).wf(),
            (final(self)@, action@) == old(self)@.step(message),
            !(message is DeleteAudioSpan) && !(message is AudioLoaded) && old(self)@.tiles()
                ==> final(self)@.tiles(),
    {
        match message {
            Message::OpenAudioFileDialog => Action::OpenAudioFileDialog(
                clone_text(&self.import_path),
            ),
            Message::OpenExportDialog => {
                if self.audio.is_none() {
                    self.user_info = warning_no_audio();
                    Action::Nothing
                } else {
                    Action::OpenExportDialog(clone_text(&self.export_path))
                }
            },
            Message::Tick(pos) => match &mut self.audio {
                Some(audio) => match audio.update_position_info(pos) {
                    Some(to) => Action::Seek(to),
                    None => Action::Nothing,
                },
                None => Action::Nothing,
            },
            Message::CheckEnd(pos) => match &mut self.audio {
                Some(audio) => {
                    if audio.end_of_track(pos) {
                        audio.set_pos(0, 0);
                        Action::Seek(0)
                    } else {
                        Action::Nothing
                    }
                },
                None => Action::Nothing,
            },
            Message::AudioFilePathLoaded(path) => match path {
                Some(path) => {
                    self.import_path = Some(path.clone());
                    Action::LoadAudio(path)
                },
                None => Action::Nothing,
            },
            Message::ExportPathLoaded(path) => match path {
                Some(path) => {
                    if self.audio.is_none() {
                        return Action::Nothing;
                    }
                    match &self.import_path {
                        Some(source) => {
                            let source = source.clone();
                            self.export_path = Some(path.clone());
                            Action::SaveAudio { source, folder: path }
                        },
                        None => Action::Nothing,
                    }
                },
                None => Action::Nothing,
            },
            Message::AudioLoaded(loaded) => match loaded {
                Ok(audio) => {
                    self.audio = Some(audio);
                    self.is_playing = true;
                    self.user_info = UserInfo::Info(
                        String::from_str(AUDIO_LOADED),
                        DebugId::InfoAudioLoaded,
                    );
                    Action::Nothing
                },
                Err(error) => {
                    self.user_info = UserInfo::Error(error);
                    Action::Nothing
                },
            },
            Message::AudioSpanPositionUpdate(id, pos) => match &mut self.audio {
                Some(audio) => {
                    audio.set_pos(id, pos);
                    Action::Seek(pos)
                },
                None => Action::Nothing,
            },
            Message::Pause => {
                if self.audio.is_none() {
                    self.user_info = warning_no_audio();
                    Action::Nothing
                } else {
                    self.is_playing = false;
                    Action::Pause
                }
            },
            Message::Play => {
                if self.audio.is_none() {
                    self.user_info = warning_no_audio();
                    Action::Nothing
                } else {
                    self.is_playing = true;
                    Action::Play
                }
            },
            Message::Split => {
                self.split();
                Action::Nothing
            },
            Message::DeleteAudioSpan(id) => {
                match &mut self.audio {
                    Some(audio) => {
                        audio.delete_span(id);
                    },
                    None => {},
                }
                Action::Nothing
            },
            Message::SpanTextUpdate(id, text) => {
                match &mut self.audio {
                    Some(audio) => {
                        audio.update_span_text(id, text);
                    },
                    None => {},
                }
                Action::Nothing
            },
            Message::FileDropped(path) => {
                self.import_path = Some(path.clone());
                Action::LoadAudio(path)
            },
            Message::Analyze => self.analyze(),
            Message::Analyzed(outcome) => match outcome {
                Ok(found) => {
                    self.analyzed(found);
                    Action::Nothing
                },
                Err(error) => {
                    self.user_info = UserInfo::Error(error);
                    Action::Nothing
                },
            },
            Message::ClickSplice(t) => {
                match &mut self.audio {
                    Some(audio) => {
                        audio.toggle_selected_split_points(t);
                    },
                    None => {},
                }
                Action::Nothing
            },
            Message::UpdateDuration(text) => {
                self.duration = text;
                Action::Nothing
            },
            Message::UpdateThreshold(text) => {
                self.threshold = text;
                Action::Nothing
            },
            Message::AudioSaved(outcome) => match outcome {
                Ok(_) => Action::Nothing,
                Err(error) => {
                    self.user_info = UserInfo::Error(error);
                    Action::Nothing
                },
            },
        }
    }
}

} // verus!
