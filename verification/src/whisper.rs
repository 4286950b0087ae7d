//! The speech model: where its files lie, which one is taken, and how the
//! segments that it recognises become text.

use vstd::prelude::*;
use vstd::relations::{sorted_by, total_ordering};
use vstd::seq_lib::lemma_sorted_unique;

use crate::text;
use crate::text::texts_of;

verus! {

/// How the directory of a model is named in front.
pub const WHISPER_MODEL_PREFIX: &'static str = "whisper.cpp-model-";

/// How the file of a model is named in front.
pub const WHISPER_MODEL_FILE_PREFIX: &'static str = "ggml-";

/// How the file of a model is named behind.
pub const WHISPER_MODEL_FILE_SUFFIX: &'static str = ".bin";

/// The model that is taken where it is there.
pub const DEFAULT_WHISPER_MODEL_PATH: &'static str = "/usr/share/whisper.cpp-model-base.en/ggml-base.en.bin";

/// An entry of a directory of shared files. It may have a name that is no text,
/// and a directory may not let its files be read.
#[derive(Debug, Clone)]
pub struct SharedEntry {
    pub name: Option<String>,
    pub is_dir: bool,
    pub files: Option<Vec<FileEntry>>,
}

/// An entry of a model's directory.
#[derive(Debug, Clone)]
pub struct FileEntry {
    pub name: Option<String>,
    pub is_file: bool,
}

/// A model file: its name and that of its directory.
#[derive(Debug)]
pub struct ModelFile {
    pub dir: String,
    pub file: String,
}

impl View for ModelFile {
    type V = (Seq<char>, Seq<char>);

    open spec fn view(&self) -> (Seq<char>, Seq<char>) {
        (self.dir@, self.file@)
    }
}

/// Whether a directory's entry is a model file.
pub open spec fn is_model_file(entry: FileEntry) -> bool {
    &&& entry.is_file
    &&& entry.name matches Some(name) && text::begins(name@, WHISPER_MODEL_FILE_PREFIX@)
        && text::ends(name@, WHISPER_MODEL_FILE_SUFFIX@)
}

/// Whether an entry is the directory of a model.
pub open spec fn is_model_dir(entry: SharedEntry) -> bool {
    &&& entry.is_dir
    &&& entry.name matches Some(name) && text::begins(name@, WHISPER_MODEL_PREFIX@)
}

/// The model files among the entries of a directory, as they come.
pub open spec fn files_found(dir: Seq<char>, files: Seq<FileEntry>) -> Seq<(Seq<char>, Seq<char>)>
    decreases files.len(),
{
    if files.len() == 0 {
        Seq::empty()
    } else {
        let before = files_found(dir, files.drop_last());
        if is_model_file(files.last()) {
            before.push((dir, files.last().name->0@))
        } else {
            before
        }
    }
}

/// The model files below some entries, as they come.
pub open spec fn models_found(entries: Seq<SharedEntry>) -> Seq<(Seq<char>, Seq<char>)>
    decreases entries.len(),
{
    if entries.len() == 0 {
        Seq::empty()
    } else {
        let before = models_found(entries.drop_last());
        let entry = entries.last();
        if is_model_dir(entry) && entry.files is Some {
            before + files_found(entry.name->0@, entry.files->0@)
        } else {
            before
        }
    }
}

/// The order of model files: by directory, then by file.
pub open spec fn model_order() -> spec_fn((Seq<char>, Seq<char>), (Seq<char>, Seq<char>)) -> bool {
    |a: (Seq<char>, Seq<char>), b: (Seq<char>, Seq<char>)|
        if a.0 == b.0 {
            text::ordered(a.1, b.1)
        } else {
            text::ordered(a.0, b.0)
        }
}

/// What some model files are.
pub open spec fn names_of(models: Seq<ModelFile>) -> Seq<(Seq<char>, Seq<char>)> {
    models.map_values(|m: ModelFile| m@)
}

proof fn model_order_is_total()
    ensures
        total_ordering(model_order()),
{
    let leq = model_order();
    assert forall|a: (Seq<char>, Seq<char>)| #[trigger] leq(a, a) by {
        text::ordered_reflexive(a.1);
    }
    assert forall|a: (Seq<char>, Seq<char>), b: (Seq<char>, Seq<char>)| #[trigger]
        leq(a, b) && #[trigger] leq(b, a) implies a == b by {
        if a.0 == b.0 {
            text::ordered_antisymmetric(a.1, b.1);
        } else {
            text::ordered_antisymmetric(a.0, b.0);
        }
    }
    assert forall|
        a: (Seq<char>, Seq<char>),
        b: (Seq<char>, Seq<char>),
        c: (Seq<char>, Seq<char>),
    | #[trigger] leq(a, b) && #[trigger] leq(b, c) implies leq(a, c) by {
        if a.0 == b.0 && b.0 == c.0 {
            text::ordered_transitive(a.1, b.1, c.1);
        } else if a.0 == c.0 {
            text::ordered_antisymmetric(a.0, b.0);
        } else if a.0 != b.0 && b.0 != c.0 {
            text::ordered_transitive(a.0, b.0, c.0);
        }
    }
    assert forall|a: (Seq<char>, Seq<char>), b: (Seq<char>, Seq<char>)| #[trigger]
        leq(a, b) || #[trigger] leq(b, a) by {
        text::ordered_total(a.0, b.0);
        text::ordered_total(a.1, b.1);
    }
}

fn model_in_order(a: &ModelFile, b: &ModelFile) -> (answer: bool)
    ensures
        answer == model_order()(a@, b@),
{
    if text::same_text(a.dir.as_str(), b.dir.as_str()) {
        text::in_order(a.file.as_str(), b.file.as_str())
    } else {
        text::in_order(a.dir.as_str(), b.dir.as_str())
    }
}

/// Puts a model file at its place among files that are in order.
fn insert_model(models: &mut Vec<ModelFile>, model: ModelFile)
    requires
        sorted_by(names_of(old(models)@), model_order()),
    ensures
        sorted_by(names_of(final(models)@), model_order()),
        names_of(final(models)@).to_multiset() == names_of(old(models)@).to_multiset().insert(
            model@,
        ),
{
    let ghost names = names_of(models@);
    let ghost name = model@;
    let ghost leq = model_order();
    let mut place: usize = models.len();
    while place > 0 && !model_in_order(&models[place - 1], &model)
        invariant
            place <= models@.len(),
            names == names_of(models@),
            name == model@,
            leq == model_order(),
            forall|i: int| place <= i < names.len() ==> !leq(#[trigger] names[i], name),
        decreases place,
    {
        assert(names[place - 1] == models@[place - 1]@);
        place = place - 1;
    }
    proof {
        model_order_is_total();
        vstd::seq_lib::to_multiset_insert(names, place as int, name);
        if place > 0 {
            assert(names[place - 1] == models@[place - 1]@);
        }
    }
    models.insert(place, model);
    proof {
        let after = names_of(models@);
        assert(after == names.insert(place as int, name));
        assert forall|i: int, j: int| 0 <= i < j < after.len() implies #[trigger] leq(
            after[i],
            after[j],
        ) by {
            if j == place {
                if i < place - 1 {
                    assert(leq(names[i], names[place - 1]));
                }
                assert(leq(names[place - 1], name));
                assert(after[i] == names[i]);
            } else if i == place {
                assert(after[j] == names[j - 1]);
                assert(leq(name, names[j - 1]));
            } else {
                let a = if i < place {
                    i
                } else {
                    i - 1
                };
                let b = if j < place {
                    j
                } else {
                    j - 1
                };
                assert(leq(names[a], names[b]));
            }
        }
    }
}

/// The model files below some entries, in order.
fn model_files(entries: &Vec<SharedEntry>) -> (models: Vec<ModelFile>)
    ensures
        names_of(models@) == models_found(entries@).sort_by(model_order()),
{
    let mut models: Vec<ModelFile> = Vec::new();
    proof {
        assert(names_of(models@) == Seq::<(Seq<char>, Seq<char>)>::empty());
        assert(entries@.take(0) == Seq::<SharedEntry>::empty());
    }
    for i in 0..entries.len()
        invariant
            sorted_by(names_of(models@), model_order()),
            names_of(models@).to_multiset() == models_found(entries@.take(i as int)).to_multiset(),
    {
        let entry = &entries[i];
        proof {
            assert(entries@.take(i + 1).drop_last() == entries@.take(i as int));
            assert(entries@.take(i + 1).last() == *entry);
        }
        if let (Some(dir), Some(files)) = (&entry.name, &entry.files) {
            if entry.is_dir && text::starts_with(dir.as_str(), WHISPER_MODEL_PREFIX) {
                let ghost before = models_found(entries@.take(i as int));
                assert(files@.take(0) == Seq::<FileEntry>::empty());
                assert(before + files_found(dir@, files@.take(0)) == before);
                for j in 0..files.len()
                    invariant
                        sorted_by(names_of(models@), model_order()),
                        names_of(models@).to_multiset() == (before + files_found(
                            dir@,
                            files@.take(j as int),
                        )).to_multiset(),
                {
                    let file = &files[j];
                    let ghost found = before + files_found(dir@, files@.take(j as int));
                    proof {
                        assert(files@.take(j + 1).drop_last() == files@.take(j as int));
                        assert(files@.take(j + 1).last() == *file);
                    }
                    if let Some(name) = &file.name {
                        if file.is_file && text::starts_with(
                            name.as_str(),
                            WHISPER_MODEL_FILE_PREFIX,
                        ) && text::ends_with(name.as_str(), WHISPER_MODEL_FILE_SUFFIX) {
                            proof {
                                vstd::seq_lib::to_multiset_build(found, (dir@, name@));
                                assert(before + files_found(dir@, files@.take(j + 1)) == found.push(
                                    (dir@, name@),
                                ));
                            }
                            insert_model(
                                &mut models,
                                ModelFile { dir: dir.clone(), file: name.clone() },
                            );
                        }
                    }
                }
                assert(files@.take(files@.len() as int) == files@);
            }
        }
    }
    proof {
        assert(entries@.take(entries@.len() as int) == entries@);
        let found = models_found(entries@);
        model_order_is_total();
        found.lemma_sort_by_ensures(model_order());
        lemma_sorted_unique(names_of(models@), found.sort_by(model_order()), model_order());
    }
    models
}

/// The path of a model file.
pub open spec fn model_path(root: Seq<char>, model: (Seq<char>, Seq<char>)) -> Seq<char> {
    text::joined_name(text::joined_name(root, model.0), model.1)
}

/// The paths of the model files below the entries of a directory, in order.
pub fn list_whisper_models_in(share_root: &str, entries: &Vec<SharedEntry>) -> (paths: Vec<String>)
    ensures
        texts_of(paths@) == models_found(entries@).sort_by(model_order()).map_values(
            |m: (Seq<char>, Seq<char>)| model_path(share_root@, m),
        ),
{
    let models = model_files(entries);
    let mut paths: Vec<String> = Vec::new();
    let ghost sorted = models_found(entries@).sort_by(model_order());
    for i in 0..models.len()
        invariant
            names_of(models@) == sorted,
            paths@.len() == i,
            forall|j: int| 0 <= j < i ==> (#[trigger] paths@[j])@ == model_path(share_root@, sorted[j]),
    {
        assert(sorted[i as int] == models@[i as int]@);
        let directory = text::join_name(share_root, models[i].dir.as_str());
        paths.push(text::join_name(directory.as_str(), models[i].file.as_str()));
    }
    assert(names_of(models@).len() == models@.len());
    assert(texts_of(paths@) =~= sorted.map_values(
        |m: (Seq<char>, Seq<char>)| model_path(share_root@, m),
    ));
    paths
}

/// The paths of the model files below the entries of the directory of shared
/// files, in order.
pub fn list_whisper_models(entries: &Vec<SharedEntry>) -> (paths: Vec<String>)
    ensures
        texts_of(paths@) == models_found(entries@).sort_by(model_order()).map_values(
            |m: (Seq<char>, Seq<char>)| model_path("/usr/share"@, m),
        ),
{
    list_whisper_models_in("/usr/share", entries)
}

/// The model to take: the preferred one where it is there, else the first one
/// that is, else the preferred one all the same.
pub open spec fn default_model(preferred_is_file: bool, models: Seq<Seq<char>>) -> Seq<char> {
    if preferred_is_file || models.len() == 0 {
        DEFAULT_WHISPER_MODEL_PATH@
    } else {
        models[0]
    }
}

/// The model to take where none is configured.
pub fn default_whisper_model_path(preferred_is_file: bool, models: &Vec<String>) -> (path: String)
    ensures
        path@ == default_model(preferred_is_file, texts_of(models@)),
{
    if preferred_is_file || models.len() == 0 {
        return DEFAULT_WHISPER_MODEL_PATH.to_owned();
    }
    models[0].clone()
}

/// Every model file that is found is listed, no other is, and the list is in
/// order.
pub proof fn every_model_is_listed(entries: Seq<SharedEntry>, model: (Seq<char>, Seq<char>))
    ensures
        models_found(entries).contains(model) <==> models_found(entries).sort_by(
            model_order(),
        ).contains(model),
        models_found(entries).len() == models_found(entries).sort_by(model_order()).len(),
        sorted_by(models_found(entries).sort_by(model_order()), model_order()),
{
    let found = models_found(entries);
    let sorted = found.sort_by(model_order());
    model_order_is_total();
    found.lemma_sort_by_ensures(model_order());
    found.to_multiset_ensures();
    sorted.to_multiset_ensures();
    assert(found.to_multiset().count(model) == sorted.to_multiset().count(model));
    assert(found.to_multiset().len() == sorted.to_multiset().len());
}

/// What can go wrong between a model and a text.
#[derive(Debug)]
pub enum WhisperError {
    InvalidPath,
    Load { path: String, error: String },
    State { error: String },
    Inference { error: String },
    MissingSegment { index: i32 },
    InvalidSegment { error: String },
}

impl WhisperError {
    /// The words that tell of the error.
    pub open spec fn words(self) -> Seq<char> {
        match self {
            WhisperError::InvalidPath => "invalid whisper model path"@,
            WhisperError::Load { path, error } => "failed to load whisper model "@ + path@ + ": "@
                + error@,
            WhisperError::State { error } => "failed to create whisper state: "@ + error@,
            WhisperError::Inference { error } => "whisper inference failed: "@ + error@,
            WhisperError::MissingSegment { index } => "missing whisper segment at index "@
                + text::signed_decimal(index as int),
            WhisperError::InvalidSegment { error } => "invalid utf-8 in whisper segment: "@
                + error@,
        }
    }

    /// The message that tells of the error.
    pub fn message(&self) -> (message: String)
        ensures
            message@ == self.words(),
    {
        match self {
            WhisperError::InvalidPath => "invalid whisper model path".to_owned(),
            WhisperError::Load { path, error } => {
                let front = text::joined_text("failed to load whisper model ", path.as_str());
                let front = text::joined_text(front.as_str(), ": ");
                text::joined_text(front.as_str(), error.as_str())
            },
            WhisperError::State { error } => text::joined_text(
                "failed to create whisper state: ",
                error.as_str(),
            ),
            WhisperError::Inference { error } => text::joined_text(
                "whisper inference failed: ",
                error.as_str(),
            ),
            WhisperError::MissingSegment { index } => {
                let number = text::signed_text(*index as i64);
                text::joined_text("missing whisper segment at index ", number.as_str())
            },
            WhisperError::InvalidSegment { error } => text::joined_text(
                "invalid utf-8 in whisper segment: ",
                error.as_str(),
            ),
        }
    }
}

/// The path of the model to load: the one that is configured, else the one that
/// the environment names, else the default. The environment may name a path that
/// is no text.
pub fn whisper_model_path(
    configured: Option<String>,
    variable: Option<Option<String>>,
    default: String,
) -> (path: Result<String, WhisperError>)
    ensures
        path == (match configured {
            Some(path) => Ok(path),
            None => match variable {
                Some(Some(path)) => Ok(path),
                Some(None) => Err(WhisperError::InvalidPath),
                None => Ok(default),
            },
        }),
{
    match configured {
        Some(path) => Ok(path),
        None => match variable {
            Some(Some(path)) => Ok(path),
            Some(None) => Err(WhisperError::InvalidPath),
            None => Ok(default),
        },
    }
}

/// Whether a model can be used: it has to load, and a state has to come of it.
/// The second result counts only where the first is good.
pub fn validate_whisper_model_path(
    path: String,
    loaded: Result<(), String>,
    state: Result<(), String>,
) -> (valid: Result<(), WhisperError>)
    ensures
        valid == (match (loaded, state) {
            (Err(error), _) => Err(WhisperError::Load { path, error }),
            (Ok(_), Err(error)) => Err(WhisperError::State { error }),
            (Ok(_), Ok(_)) => Ok(()),
        }),
{
    match loaded {
        Err(error) => Err(WhisperError::Load { path, error }),
        Ok(_) => match state {
            Err(error) => Err(WhisperError::State { error }),
            Ok(_) => Ok(()),
        },
    }
}

/// Whether a recognition can start: there has to be a path, and the model there
/// has to be good.
pub fn preload_whisper_state(
    path: Result<String, WhisperError>,
    loaded: Result<(), String>,
    state: Result<(), String>,
) -> (ready: Result<(), WhisperError>)
    ensures
        ready == (match (path, loaded, state) {
            (Err(error), _, _) => Err(error),
            (Ok(path), Err(error), _) => Err(WhisperError::Load { path, error }),
            (Ok(_), Ok(_), Err(error)) => Err(WhisperError::State { error }),
            (Ok(_), Ok(_), Ok(_)) => Ok(()),
        }),
{
    match path {
        Ok(path) => validate_whisper_model_path(path, loaded, state),
        Err(error) => Err(error),
    }
}

/// The number of threads that a recognition runs on: at least one.
pub fn inference_threads(n_threads: usize) -> (threads: i32)
    ensures
        threads == (if n_threads < 1 {
            1usize
        } else {
            n_threads
        }) as i32,
{
    let wanted: usize = if n_threads < 1 {
        1
    } else {
        n_threads
    };
    #[verifier::truncate]
    (wanted as i32)
}

/// A segment of what a model recognised, as it comes.
#[derive(Debug)]
pub enum Segment {
    /// The model promised the segment, but does not have it.
    Missing,
    /// The segment is no text.
    Invalid(String),
    Text(String),
}

/// The text with another segment behind it.
pub open spec fn with_segment(text: Seq<char>, segment: Seq<char>) -> Seq<char> {
    if text.len() == 0 {
        text::trimmed(segment)
    } else {
        text.push(' ') + text::trimmed(segment)
    }
}

/// The text of some segments, one behind the other.
pub open spec fn joined_segments(segments: Seq<Segment>) -> Seq<char>
    decreases segments.len(),
{
    if segments.len() == 0 {
        Seq::empty()
    } else {
        with_segment(joined_segments(segments.drop_last()), segments.last()->Text_0@)
    }
}

/// Whether all segments are texts.
pub open spec fn all_texts(segments: Seq<Segment>) -> bool {
    forall|i: int| 0 <= i < segments.len() ==> (#[trigger] segments[i]) is Text
}

/// The transcript of a recognition: what its segments say, or what went wrong
/// first.
pub fn transcribe_with_state(inference: Result<(), String>, segments: &Vec<Segment>) -> (transcript:
    Result<String, WhisperError>)
    requires
        segments@.len() <= i32::MAX,
    ensures
        match transcript {
            Ok(text) => inference is Ok && all_texts(segments@) && text@ == text::trimmed(
                joined_segments(segments@),
            ),
            Err(WhisperError::Inference { error }) => inference matches Err(e) && error == e,
            Err(WhisperError::MissingSegment { index }) => inference is Ok && 0 <= index
                < segments@.len() && all_texts(segments@.take(index as int))
                && segments@[index as int] is Missing,
            Err(WhisperError::InvalidSegment { error }) => inference is Ok && exists|i: int|
                0 <= i < segments@.len() && all_texts(segments@.take(i)) && (
                #[trigger] segments@[i] matches Segment::Invalid(e) && e@ == error@),
            Err(_) => false,
        },
        inference is Ok && all_texts(segments@) ==> transcript is Ok,
        transcript is Ok <==> inference is Ok && forall|i: int|
            0 <= i < segments@.len() ==> #[trigger] segments@[i] is Text,
        transcript matches Err(WhisperError::MissingSegment { index }) ==> segments@[index as int]
            is Missing && forall|i: int| 0 <= i < index ==> #[trigger] segments@[i] is Text,
{
    if let Err(error) = inference {
        return Err(WhisperError::Inference { error });
    }
    let mut text = String::new();
    assert(segments@.take(0) == Seq::<Segment>::empty());
    for i in 0..segments.len()
        invariant
            inference is Ok,
            segments@.len() <= i32::MAX,
            text@ == joined_segments(segments@.take(i as int)),
            forall|j: int| 0 <= j < i ==> (#[trigger] segments@[j]) is Text,
    {
        proof {
            assert(segments@.take(i + 1).drop_last() == segments@.take(i as int));
            assert(segments@.take(i + 1).last() == segments@[i as int]);
        }
        match &segments[i] {
            Segment::Missing => {
                return Err(WhisperError::MissingSegment { index: i as i32 });
            },
            Segment::Invalid(error) => {
                return Err(WhisperError::InvalidSegment { error: error.clone() });
            },
            Segment::Text(segment) => {
                let words = text::trim(segment.as_str());
                let ghost before = text@;
                if !text.as_str().is_empty() {
                    text.push(' ');
                }
                text.append(words.as_str());
                assert(text@ == with_segment(before, segment@));
            },
        }
    }
    assert(segments@.take(segments@.len() as int) == segments@);
    Ok(text::trim(text.as_str()))
}

/// A transcript never starts or ends with whitespace.
pub proof fn transcript_is_trimmed(segments: Seq<Segment>)
    ensures
        ({
            let transcript = text::trimmed(joined_segments(segments));
            &&& transcript.len() > 0 ==> !text::whitespace(transcript[0])
            &&& transcript.len() > 0 ==> !text::whitespace(transcript.last())
        }),
{
    text::trimmed_has_no_outer_whitespace(joined_segments(segments));
}

/// Whitespace around a segment never reaches the transcript.
pub proof fn space_around_segments_does_not_matter(a: Seq<Segment>, b: Seq<Segment>)
    requires
        a.len() == b.len(),
        forall|i: int|
            0 <= i < a.len() ==> text::trimmed((#[trigger] a[i])->Text_0@) == text::trimmed(
                b[i]->Text_0@,
            ),
    ensures
        joined_segments(a) == joined_segments(b),
    decreases a.len(),
{
    if a.len() > 0 {
        space_around_segments_does_not_matter(a.drop_last(), b.drop_last());
        assert(text::trimmed(a[a.len() - 1]->Text_0@) == text::trimmed(b.last()->Text_0@));
    }
}

proof fn joined_is_blank(segments: Seq<Segment>)
    ensures
        text::blank(joined_segments(segments)) <==> forall|i: int|
            0 <= i < segments.len() ==> text::blank((#[trigger] segments[i])->Text_0@),
    decreases segments.len(),
{
    if segments.len() > 0 {
        let before = segments.drop_last();
        joined_is_blank(before);
        let front = joined_segments(before);
        let last = segments.last()->Text_0@;
        let words = text::trimmed(last);
        let all = joined_segments(segments);
        text::blank_text_trims_to_nothing(last);
        text::trimmed_has_no_outer_whitespace(last);
        assert(forall|i: int| 0 <= i < before.len() ==> before[i] == segments[i]);
        if text::blank(all) {
            if words.len() > 0 {
                assert(all.last() == words.last());
                assert(text::whitespace(all[all.len() - 1]));
            }
            assert forall|i: int| 0 <= i < front.len() implies text::whitespace(
                #[trigger] front[i],
            ) by {
                assert(all[i] == front[i]);
            }
            assert forall|i: int| 0 <= i < segments.len() implies text::blank(
                (#[trigger] segments[i])->Text_0@,
            ) by {
                if i < before.len() {
                    assert(text::blank(before[i]->Text_0@));
                }
            }
        } else if forall|i: int|
            0 <= i < segments.len() ==> text::blank((#[trigger] segments[i])->Text_0@) {
            assert(text::blank(segments[segments.len() - 1]->Text_0@));
            assert forall|i: int| 0 <= i < before.len() implies text::blank(
                (#[trigger] before[i])->Text_0@,
            ) by {
                assert(text::blank(segments[i]->Text_0@));
            }
            assert(words.len() == 0);
            assert forall|i: int| 0 <= i < all.len() implies text::whitespace(#[trigger] all[i]) by {
                if i < front.len() {
                    assert(all[i] == front[i]);
                }
            }
        }
    }
}

/// A transcript is empty exactly where every segment is blank.
pub proof fn only_silence_gives_no_text(segments: Seq<Segment>)
    ensures
        text::trimmed(joined_segments(segments)).len() == 0 <==> forall|i: int|
            0 <= i < segments.len() ==> text::blank((#[trigger] segments[i])->Text_0@),
{
    joined_is_blank(segments);
    text::blank_text_trims_to_nothing(joined_segments(segments));
}

proof fn nothing_is_joined_of_blanks(segments: Seq<Segment>)
    ensures
        joined_segments(segments).len() > 0 <==> exists|j: int|
            0 <= j < segments.len() && text::trimmed((#[trigger] segments[j])->Text_0@).len() > 0,
    decreases segments.len(),
{
    if segments.len() > 0 {
        let before = segments.drop_last();
        let last = segments.len() - 1;
        nothing_is_joined_of_blanks(before);
        if joined_segments(before).len() > 0 {
            let j = choose|j: int|
                0 <= j < before.len() && text::trimmed((#[trigger] before[j])->Text_0@).len() > 0;
            assert(segments[j] == before[j]);
        } else {
            assert(forall|j: int| 0 <= j < last ==> before[j] == #[trigger] segments[j]);
            assert(joined_segments(segments) == text::trimmed(segments[last]->Text_0@));
        }
    }
}

/// The text of some segments is what each says without the whitespace round it,
/// with one space in front of it unless nothing was said before.
pub proof fn segments_are_joined_by_spaces(segments: Seq<Segment>)
    ensures
        joined_segments(segments) == Seq::new(
            segments.len(),
            |i: int|
                if exists|j: int|
                    0 <= j < i && text::trimmed((#[trigger] segments[j])->Text_0@).len() > 0 {
                    seq![' '] + text::trimmed(segments[i]->Text_0@)
                } else {
                    text::trimmed(segments[i]->Text_0@)
                },
        ).flatten(),
    decreases segments.len(),
{
    let piece = |i: int|
        if exists|j: int|
            0 <= j < i && text::trimmed((#[trigger] segments[j])->Text_0@).len() > 0 {
            seq![' '] + text::trimmed(segments[i]->Text_0@)
        } else {
            text::trimmed(segments[i]->Text_0@)
        };
    let pieces = Seq::new(segments.len(), piece);
    if segments.len() == 0 {
        assert(pieces.flatten() =~= Seq::<char>::empty());
    } else {
        let before = segments.drop_last();
        let last = segments.len() - 1;
        segments_are_joined_by_spaces(before);
        nothing_is_joined_of_blanks(before);
        let earlier = Seq::new(
            before.len(),
            |i: int|
                if exists|j: int|
                    0 <= j < i && text::trimmed((#[trigger] before[j])->Text_0@).len() > 0 {
                    seq![' '] + text::trimmed(before[i]->Text_0@)
                } else {
                    text::trimmed(before[i]->Text_0@)
                },
        );
        assert forall|i: int| 0 <= i < last implies earlier[i] == pieces[i] by {
            said_before(segments, i);
        }
        assert(pieces =~= earlier.push(pieces[last]));
        earlier.lemma_flatten_push(pieces[last]);
        said_before(segments, last);
        let front = joined_segments(before);
        let words = text::trimmed(segments[last]->Text_0@);
        if front.len() > 0 {
            assert(front.push(' ') + words =~= front + (seq![' '] + words));
        } else {
            assert(front + words =~= words);
        }
    }
}

proof fn said_before(segments: Seq<Segment>, i: int)
    requires
        0 <= i < segments.len(),
    ensures
        (exists|j: int|
            0 <= j < i && text::trimmed((#[trigger] segments.drop_last()[j])->Text_0@).len() > 0)
            <==> (exists|j: int|
            0 <= j < i && text::trimmed((#[trigger] segments[j])->Text_0@).len() > 0),
{
    let before = segments.drop_last();
    if exists|j: int| 0 <= j < i && text::trimmed((#[trigger] segments[j])->Text_0@).len() > 0 {
        let j = choose|j: int|
            0 <= j < i && text::trimmed((#[trigger] segments[j])->Text_0@).len() > 0;
        assert(before[j] == segments[j]);
    }
    if exists|j: int| 0 <= j < i && text::trimmed((#[trigger] before[j])->Text_0@).len() > 0 {
        let j = choose|j: int|
            0 <= j < i && text::trimmed((#[trigger] before[j])->Text_0@).len() > 0;
        assert(before[j] == segments[j]);
    }
}

proof fn words_follow_each_other(segments: Seq<Segment>, words: Seq<Seq<char>>)
    requires
        words.len() == segments.len() > 0,
        forall|i: int|
            0 <= i < words.len() ==> text::trimmed((#[trigger] segments[i])->Text_0@) == words[i]
                && words[i].len() > 0,
    ensures
        joined_segments(segments).push(' ') == words.map_values(
            |word: Seq<char>| word.push(' '),
        ).flatten(),
        joined_segments(segments).len() > 0,
        joined_segments(segments)[0] == words[0][0],
        joined_segments(segments).last() == words.last().last(),
    decreases segments.len(),
{
    let spaced = |word: Seq<char>| word.push(' ');
    let all = words.map_values(spaced);
    let last = segments.len() - 1;
    let word = words[last];
    assert(text::trimmed(segments[last]->Text_0@) == word);
    let text = joined_segments(segments);
    if last == 0 {
        assert(joined_segments(segments.drop_last()) =~= Seq::<char>::empty());
        assert(text == word);
        assert(all.len() == 1);
        all.lemma_flatten_singleton();
    } else {
        let before = segments.drop_last();
        let earlier = words.drop_last();
        assert forall|i: int| 0 <= i < earlier.len() implies text::trimmed(
            (#[trigger] before[i])->Text_0@,
        ) == earlier[i] && earlier[i].len() > 0 by {
            assert(before[i] == segments[i]);
        }
        words_follow_each_other(before, earlier);
        let front = joined_segments(before);
        assert(text == front.push(' ') + word);
        assert(all =~= earlier.map_values(spaced).push(word.push(' ')));
        earlier.map_values(spaced).lemma_flatten_push(word.push(' '));
        assert(text.push(' ') =~= front.push(' ') + word.push(' '));
        assert(text[0] == front[0]);
        assert(text.last() == word.last());
    }
}

/// Where every segment says something, the transcript is what they say without the
/// whitespace round it, one after the other with one space between two: with a
/// space behind it, it is all these words, each with a space behind it. So each
/// stands whole behind those before it.
pub proof fn transcript_is_the_words(segments: Seq<Segment>, words: Seq<Seq<char>>, i: int)
    requires
        words.len() == segments.len(),
        forall|i: int|
            0 <= i < words.len() ==> text::trimmed((#[trigger] segments[i])->Text_0@) == words[i]
                && words[i].len() > 0,
        0 <= i < words.len(),
    ensures
        ({
            let transcript = text::trimmed(joined_segments(segments));
            let spaced = words.map_values(|word: Seq<char>| word.push(' '));
            let at = spaced.take(i).flatten().len() as int;
            &&& transcript.push(' ') == spaced.flatten()
            &&& at + words[i].len() <= transcript.len()
            &&& transcript.subrange(at, at + words[i].len()) == words[i]
            &&& i > 0 ==> transcript[at - 1] == ' '
            &&& i == 0 ==> at == 0
            &&& i < words.len() - 1 ==> transcript[at + words[i].len()] == ' '
            &&& i == words.len() - 1 ==> at + words[i].len() == transcript.len()
        }),
{
    words_follow_each_other(segments, words);
    let text = joined_segments(segments);
    assert(text::trimmed(segments[0]->Text_0@) == words[0]);
    text::trimmed_has_no_outer_whitespace(segments[0]->Text_0@);
    assert(text::trimmed(segments[segments.len() - 1]->Text_0@) == words.last());
    text::trimmed_has_no_outer_whitespace(segments[segments.len() - 1]->Text_0@);
    assert(text::trimmed(text) == text);
    let spaced = words.map_values(|word: Seq<char>| word.push(' '));
    let front = spaced.take(i).flatten();
    let next = spaced.take(i + 1).flatten();
    let at = front.len() as int;
    assert(spaced.take(i + 1) =~= spaced.take(i).push(spaced[i]));
    spaced.take(i).lemma_flatten_push(spaced[i]);
    let rest = spaced.skip(i + 1);
    assert(spaced =~= spaced.take(i + 1) + rest);
    vstd::seq_lib::lemma_flatten_concat(spaced.take(i + 1), rest);
    let whole = text.push(' ');
    assert(whole == front + words[i].push(' ') + rest.flatten());
    assert(whole.subrange(at, at + words[i].len()) =~= words[i]);
    assert(whole[at + words[i].len()] == ' ');
    if i > 0 {
        assert(spaced.take(i) =~= spaced.take(i - 1).push(spaced[i - 1]));
        spaced.take(i - 1).lemma_flatten_push(spaced[i - 1]);
        assert(front.last() == ' ');
        assert(whole[at - 1] == front[at - 1]);
    } else {
        assert(spaced.take(0).flatten() =~= Seq::<char>::empty());
    }
    if i < words.len() - 1 {
        assert(rest[0] == spaced[i + 1]);
        assert(rest.flatten() == rest[0] + rest.drop_first().flatten());
        assert(rest.flatten().len() > 0);
    } else {
        assert(rest =~= Seq::<Seq<char>>::empty());
        assert(rest.flatten() =~= Seq::<char>::empty());
        assert(whole =~= front + words[i].push(' '));
    }
    assert(text.subrange(at, at + words[i].len()) =~= words[i]);
}

proof fn files_are_filtered(dir: Seq<char>, files: Seq<FileEntry>)
    ensures
        files_found(dir, files) == files.filter(
            |entry: FileEntry|
                entry.is_file && entry.name is Some && text::begins((entry.name->0)@, "ggml-"@)
                    && text::ends((entry.name->0)@, ".bin"@),
        ).map_values(|entry: FileEntry| (dir, (entry.name->0)@)),
    decreases files.len(),
{
    let wanted = |entry: FileEntry|
        entry.is_file && entry.name is Some && text::begins((entry.name->0)@, "ggml-"@)
            && text::ends((entry.name->0)@, ".bin"@);
    let named = |entry: FileEntry| (dir, (entry.name->0)@);
    reveal(Seq::filter);
    if files.len() == 0 {
        assert(files.filter(wanted).map_values(named) =~= Seq::<(Seq<char>, Seq<char>)>::empty());
    } else {
        files_are_filtered(dir, files.drop_last());
        let before = files.drop_last().filter(wanted);
        if wanted(files.last()) {
            assert(before.push(files.last()).map_values(named) =~= before.map_values(named).push(
                named(files.last()),
            ));
        }
    }
}

/// The model files are, directory by directory and as they come, the files whose
/// names start with `ggml-` and end with `.bin`, in the directories that can be
/// read and whose names start with `whisper.cpp-model-`.
pub proof fn models_are_found_by_their_names(entries: Seq<SharedEntry>)
    ensures
        models_found(entries) == entries.map_values(
            |entry: SharedEntry|
                if entry.is_dir && entry.name is Some && text::begins(
                    (entry.name->0)@,
                    "whisper.cpp-model-"@,
                ) && entry.files is Some {
                    (entry.files->0)@.filter(
                        |file: FileEntry|
                            file.is_file && file.name is Some && text::begins(
                                (file.name->0)@,
                                "ggml-"@,
                            ) && text::ends((file.name->0)@, ".bin"@),
                    ).map_values(|file: FileEntry| ((entry.name->0)@, (file.name->0)@))
                } else {
                    Seq::empty()
                },
        ).flatten(),
    decreases entries.len(),
{
    let below = |entry: SharedEntry|
        if entry.is_dir && entry.name is Some && text::begins(
            (entry.name->0)@,
            "whisper.cpp-model-"@,
        ) && entry.files is Some {
            (entry.files->0)@.filter(
                |file: FileEntry|
                    file.is_file && file.name is Some && text::begins((file.name->0)@, "ggml-"@)
                        && text::ends((file.name->0)@, ".bin"@),
            ).map_values(|file: FileEntry| ((entry.name->0)@, (file.name->0)@))
        } else {
            Seq::empty()
        };
    let all = entries.map_values(below);
    if entries.len() == 0 {
        assert(all.flatten() =~= Seq::<(Seq<char>, Seq<char>)>::empty());
    } else {
        let before = entries.drop_last();
        let entry = entries.last();
        models_are_found_by_their_names(before);
        assert(all =~= before.map_values(below).push(below(entry)));
        before.map_values(below).lemma_flatten_push(below(entry));
        if is_model_dir(entry) && entry.files is Some {
            files_are_filtered((entry.name->0)@, (entry.files->0)@);
            assert(below(entry) == files_found((entry.name->0)@, (entry.files->0)@));
        } else {
            assert(below(entry) =~= Seq::<(Seq<char>, Seq<char>)>::empty());
            assert(models_found(before) + Seq::<(Seq<char>, Seq<char>)>::empty() =~= models_found(
                before,
            ));
        }
    }
}

/// Model files are ordered by their directories, and those of one directory by
/// their own names.
pub proof fn models_are_ordered_by_name(
    dir: Seq<char>,
    other: Seq<char>,
    file: Seq<char>,
    last: Seq<char>,
)
    ensures
        model_order()((dir, file), (dir, last)) <==> text::ordered(file, last),
        dir != other ==> (model_order()((dir, file), (other, last)) <==> text::ordered(dir, other)),
{
}

/// The path of a model is its directory below the root, and its file below that.
pub proof fn model_paths_have_three_parts(root: Seq<char>, dir: Seq<char>, file: Seq<char>)
    requires
        root.len() > 0,
        root[root.len() - 1] != '/',
        dir.len() > 0,
        dir[dir.len() - 1] != '/',
    ensures
        model_path(root, (dir, file)) == root + seq!['/'] + dir + seq!['/'] + file,
{
    assert(model_path(root, (dir, file)) =~= root + seq!['/'] + dir + seq!['/'] + file);
}

/// Without a configured model the usual one is taken where it is there, or where
/// there is none at all; else the first one of the list.
pub proof fn usual_model_comes_first(models: Seq<Seq<char>>)
    ensures
        default_model(true, models) == "/usr/share/whisper.cpp-model-base.en/ggml-base.en.bin"@,
        models.len() == 0 ==> default_model(false, models)
            == "/usr/share/whisper.cpp-model-base.en/ggml-base.en.bin"@,
        models.len() > 0 ==> default_model(false, models) == models[0],
{
}

/// An error is told by its kind, and then its cause word for word.
pub proof fn errors_tell_their_cause(path: String, error: String, index: i32)
    ensures
        WhisperError::InvalidPath.words() == "invalid whisper model path"@,
        (WhisperError::Load { path, error }).words() == "failed to load whisper model "@ + path@
            + ": "@ + error@,
        (WhisperError::State { error }).words() == "failed to create whisper state: "@ + error@,
        (WhisperError::Inference { error }).words() == "whisper inference failed: "@ + error@,
        (WhisperError::MissingSegment { index }).words() == "missing whisper segment at index "@
            + text::signed_decimal(index as int),
        (WhisperError::InvalidSegment { error }).words() == "invalid utf-8 in whisper segment: "@
            + error@,
{
}

} // verus!
