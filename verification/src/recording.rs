//! Recordings: which one is running, what is captured of it, what becomes of it
//! when it ends, and the file and command forms of it.

use vstd::prelude::*;
use vstd::string::*;

use crate::audio;
use crate::audio::{
    append_recorded_s16le_chunk, clamp_level, clamped_level, left_over, patterns_of, peak, rms,
    sample_pattern, samples_in, stream, with_samples, AudioStats, RECORDING_LATENCY_MILLIS, SAMPLE_RATE,
};
use crate::config::AppConfig;
use crate::float::single_pattern;
use crate::text;
use crate::text::{append_bytes, push_text, texts_of};

verus! {

/// Which recording is running. Each has a number of its own, so that what was
/// meant for an earlier one can be told apart.
#[derive(Debug, Clone, Copy, PartialEq, Eq, Structural)]
pub struct RecordingGeneration {
    pub current: Option<u64>,
    pub next: u64,
}

impl Default for RecordingGeneration {
    fn default() -> (generation: Self)
        ensures
            generation == (RecordingGeneration { current: None, next: 0 }),
            generation.wf(),
    {
        RecordingGeneration { current: None, next: 0 }
    }
}

impl RecordingGeneration {
    /// Whether the running recording has a number that was given.
    pub open spec fn wf(self) -> bool {
        self.current matches Some(current) ==> current <= self.next
    }

    /// The state after another recording began.
    pub open spec fn begun(self) -> Self {
        let number = if self.next < u64::MAX {
            (self.next + 1) as u64
        } else {
            self.next
        };
        RecordingGeneration { current: Some(number), next: number }
    }

    /// The state after the recording with some number was to end.
    pub open spec fn ended(self, generation: u64) -> Self {
        if self.current == Some(generation) {
            RecordingGeneration { current: None, ..self }
        } else {
            self
        }
    }

    /// Begins another recording, and gives its number.
    pub fn next(&mut self) -> (generation: u64)
        ensures
            *final(self) == old(self).begun(),
            final(self).current == Some(generation),
            final(self).wf(),
    {
        self.next = self.next.saturating_add(1);
        self.current = Some(self.next);
        self.next
    }

    /// The number of the running recording.
    pub fn current(&self) -> (current: Option<u64>)
        ensures
            current == self.current,
    {
        self.current
    }

    /// Ends the recording with the number, if it is the one that is running, and
    /// tells whether it was.
    pub fn stop_if_current(&mut self, generation: u64) -> (stopped: bool)
        ensures
            *final(self) == old(self).ended(generation),
            stopped == (old(self).current == Some(generation)),
            old(self).wf() ==> final(self).wf(),
    {
        match self.current {
            Some(current) => {
                if current == generation {
                    self.current = None;
                    return true;
                }
            },
            None => {},
        }
        false
    }
}

/// Once a recording that was given its number is not running, it never is again:
/// whatever begins or ends next, ending it changes nothing. This holds as long as
/// there are numbers left.
pub proof fn stale_recording_stays_stale(
    state: RecordingGeneration,
    generation: u64,
    other: u64,
)
    requires
        state.wf(),
        state.next < u64::MAX,
        generation <= state.next,
        state.current != Some(generation),
    ensures
        state.ended(generation) == state,
        state.begun().current != Some(generation),
        state.begun().ended(generation) == state.begun(),
        generation <= state.begun().next,
        state.ended(other).current != Some(generation),
        generation <= state.ended(other).next,
{
}

/// A recording runs from the moment it begins to the moment it ends, and two
/// recordings have different numbers.
pub proof fn recording_runs_until_ended(state: RecordingGeneration, generation: u64)
    requires
        state.wf(),
        state.next < u64::MAX,
        state.begun().current == Some(generation),
    ensures
        state.current != Some(generation),
        state.begun().ended(generation).current is None,
        forall|other: u64|
            other != generation ==> (#[trigger] state.begun().ended(other)).current == Some(
                generation,
            ),
        state.begun().ended(generation).begun().current != Some(generation) || state.begun().next
            == u64::MAX,
{
}

/// What was captured of a recording so far: its samples as the bits of
/// single-precision numbers, how long and how loud it is, and a byte that waits
/// for its pair.
#[derive(Debug)]
pub struct CapturedRecording {
    pub samples: Vec<u32>,
    pub stats: AudioStats,
    pub carry: Option<u8>,
}

/// What becomes of a recording that ended.
#[derive(Debug)]
pub enum RecordingStop {
    /// It is to be transcribed: these are its samples.
    Captured(Vec<u32>),
    /// It is too short, or holds too little speech.
    Discarded(AudioStats),
}

impl CapturedRecording {
    /// Whether this was captured from some bytes of sound.
    pub open spec fn holds(self, bytes: Seq<u8>) -> bool {
        &&& patterns_of(self.samples@, samples_in(bytes))
        &&& self.carry == left_over(bytes)
        &&& self.stats.bytes == 2 * samples_in(bytes).len()
        &&& self.stats.wf()
    }

    /// Nothing was captured yet.
    pub fn new() -> (captured: Self)
        ensures
            captured.samples@.len() == 0,
            captured.stats == (AudioStats { bytes: 0, speech_bytes: 0 }),
            captured.carry is None,
            captured.holds(Seq::empty()),
    {
        CapturedRecording { samples: Vec::new(), stats: AudioStats::default(), carry: None }
    }

    /// Takes a chunk of sound in, and gives its level: the largest magnitude in
    /// it, brought between 0.0 and 1.0.
    pub fn ingest(&mut self, bytes: &[u8]) -> (level: u32)
        requires
            old(self).stats.wf(),
            old(self).stats.bytes + 2 * samples_in(stream(old(self).carry, bytes@)).len()
                <= u64::MAX,
        ensures
            ({
                let decoded = samples_in(stream(old(self).carry, bytes@));
                &&& level == clamped_level(single_pattern(peak(decoded), 39) as u32)
                &&& final(self).carry == left_over(stream(old(self).carry, bytes@))
                &&& final(self).stats == with_samples(
                    old(self).stats,
                    decoded.len(),
                    single_pattern(rms(decoded), 128) as u32,
                )
                &&& final(self).samples@.take(old(self).samples@.len() as int)
                    == old(self).samples@
                &&& patterns_of(final(self).samples@.skip(old(self).samples@.len() as int), decoded)
                &&& final(self).samples@.len() == old(self).samples@.len() + decoded.len()
            }),
            final(self).stats.wf(),
            bytes@.len() > 0 ==> forall|before: Seq<u8>| #[trigger]
                old(self).holds(before) ==> final(self).holds(before + bytes@),
    {
        let metrics = append_recorded_s16le_chunk(
            bytes,
            &mut self.samples,
            &mut self.stats,
            &mut self.carry,
        );
        proof {
            let decoded = samples_in(stream(old(self).carry, bytes@));
            assert(self.stats == with_samples(old(self).stats, decoded.len(), metrics.rms));
            if bytes@.len() > 0 {
                assert forall|before: Seq<u8>| #[trigger] old(self).holds(before) implies self.holds(
                    before + bytes@,
                ) by {
                    chunk_extends_stream(before, bytes@);
                    let all = samples_in(before) + decoded;
                    let n = old(self).samples@.len() as int;
                    assert forall|i: int| 0 <= i < all.len() implies (#[trigger] self.samples@[i])
                        == sample_pattern(all[i]) by {
                        if i < n {
                            assert(self.samples@[i] == self.samples@.take(n)[i]);
                        } else {
                            assert(self.samples@[i] == self.samples@.skip(n)[i - n]);
                        }
                    }
                }
            }
        }
        clamp_level(metrics.peak)
    }

    /// Ends the recording.
    pub fn finish(self) -> (stop: RecordingStop)
        ensures
            stop == (if self.stats.worth_transcribing() {
                RecordingStop::Captured(self.samples)
            } else {
                RecordingStop::Discarded(self.stats)
            }),
    {
        if !self.stats.should_transcribe() {
            return RecordingStop::Discarded(self.stats);
        }
        RecordingStop::Captured(self.samples)
    }
}

proof fn chunk_extends_stream(before: Seq<u8>, bytes: Seq<u8>)
    requires
        bytes.len() > 0,
    ensures
        samples_in(before + bytes) == samples_in(before) + samples_in(
            stream(left_over(before), bytes),
        ),
        left_over(before + bytes) == left_over(stream(left_over(before), bytes)),
{
    if before.len() > 0 {
        audio::chunking_does_not_matter(None, before, bytes);
    } else {
        assert(before + bytes == bytes);
        assert(samples_in(before) + samples_in(bytes) =~= samples_in(bytes));
    }
}

/// The bytes that are read from the sound source at once.
pub fn recording_chunk_bytes() -> (count: usize)
    ensures
        count == (SAMPLE_RATE * RECORDING_LATENCY_MILLIS) / 1000 * 2,
        count == 960,
{
    ((SAMPLE_RATE as usize * RECORDING_LATENCY_MILLIS as usize) / 1000) * 2
}

/// The two bytes of a number, the low one first.
pub open spec fn two_bytes(n: nat) -> Seq<u8> {
    seq![(n % 256) as u8, (n / 256 % 256) as u8]
}

/// The four bytes of a number, the low one first.
pub open spec fn four_bytes(n: nat) -> Seq<u8> {
    two_bytes(n % 65536) + two_bytes(n / 65536)
}

/// The number in some bytes, the low one first.
pub open spec fn number_in(bytes: Seq<u8>) -> nat
    decreases bytes.len(),
{
    if bytes.len() == 0 {
        0
    } else {
        bytes[0] as nat + 256 * number_in(bytes.skip(1))
    }
}

/// The head of a sound file in front of some bytes of one channel of 16-bit
/// samples.
pub open spec fn wav_header(data_len: nat) -> Seq<u8> {
    "RIFF".spec_bytes() + four_bytes(36 + data_len) + "WAVE".spec_bytes() + "fmt ".spec_bytes()
        + four_bytes(16) + two_bytes(1) + two_bytes(1) + four_bytes(SAMPLE_RATE as nat)
        + four_bytes((SAMPLE_RATE * 2) as nat) + two_bytes(2) + two_bytes(16)
        + "data".spec_bytes() + four_bytes(data_len)
}

fn push_two(out: &mut Vec<u8>, n: u16)
    ensures
        final(out)@ == old(out)@ + two_bytes(n as nat),
{
    let ghost before = out@;
    out.push((n % 256) as u8);
    out.push((n / 256) as u8);
    assert(out@ =~= before + two_bytes(n as nat));
}

fn push_four(out: &mut Vec<u8>, n: u32)
    ensures
        final(out)@ == old(out)@ + four_bytes(n as nat),
{
    let ghost before = out@;
    push_two(out, (n % 65536) as u16);
    push_two(out, (n / 65536) as u16);
    assert(out@ =~= before + four_bytes(n as nat));
}

/// Writes the head of a sound file.
fn write_wav_header(out: &mut Vec<u8>, data_len: u32)
    requires
        36 + data_len <= u32::MAX,
    ensures
        final(out)@ == old(out)@ + wav_header(data_len as nat),
{
    let ghost before = out@;
    append_bytes(out, "RIFF".as_bytes());
    push_four(out, 36 + data_len);
    append_bytes(out, "WAVE".as_bytes());
    append_bytes(out, "fmt ".as_bytes());
    push_four(out, 16);
    push_two(out, 1);
    push_two(out, 1);
    push_four(out, SAMPLE_RATE);
    push_four(out, SAMPLE_RATE * 2);
    push_two(out, 2);
    push_two(out, 16);
    append_bytes(out, "data".as_bytes());
    push_four(out, data_len);
    assert(out@ =~= before + wav_header(data_len as nat));
}

/// The sound file of some bytes of sound. The head has room for the low 32 bits
/// of their number.
pub fn raw_to_wav(raw: &[u8]) -> (wav: Vec<u8>)
    requires
        36 + raw@.len() % 0x1_0000_0000 <= u32::MAX,
    ensures
        wav@ == wav_header(raw@.len() % 0x1_0000_0000) + raw@,
{
    let raw_len: u64 = raw.len() as u64;
    let data_len: u32 = (raw_len % 0x1_0000_0000) as u32;
    let mut wav: Vec<u8> = Vec::new();
    write_wav_header(&mut wav, data_len);
    append_bytes(&mut wav, raw);
    wav
}

proof fn two_bytes_read_back(n: nat)
    requires
        n < 65536,
    ensures
        number_in(two_bytes(n)) == n,
{
    let bytes = two_bytes(n);
    assert(bytes.skip(1) =~= seq![bytes[1]]);
    assert(bytes.skip(1).skip(1) =~= Seq::<u8>::empty());
    assert(number_in(bytes.skip(1)) == bytes[1] as nat + 256 * number_in(bytes.skip(1).skip(1)));
}

/// A number that is written in four bytes is read back from them.
pub proof fn four_bytes_read_back(n: nat)
    requires
        n <= u32::MAX,
    ensures
        number_in(four_bytes(n)) == n,
{
    let bytes = four_bytes(n);
    let high = two_bytes(n / 65536);
    two_bytes_read_back(n % 65536);
    two_bytes_read_back(n / 65536);
    let low = two_bytes(n % 65536);
    assert(low.skip(1) =~= seq![low[1]]);
    assert(low.skip(1).skip(1) =~= Seq::<u8>::empty());
    assert(number_in(low.skip(1)) == low[1] as nat + 256 * number_in(low.skip(1).skip(1)));
    assert(bytes.skip(1)[0] == low[1]);
    assert(bytes.skip(1).skip(1) =~= high);
    assert(number_in(bytes.skip(1)) == low[1] as nat + 256 * number_in(high));
}

proof fn tags_are_short()
    ensures
        "RIFF".spec_bytes().len() == 4,
        "WAVE".spec_bytes().len() == 4,
        "fmt ".spec_bytes().len() == 4,
        "data".spec_bytes().len() == 4,
{
    reveal_strlit("RIFF");
    reveal_strlit("WAVE");
    reveal_strlit("fmt ");
    reveal_strlit("data");
    is_ascii_spec_bytes("RIFF");
    is_ascii_spec_bytes("WAVE");
    is_ascii_spec_bytes("fmt ");
    is_ascii_spec_bytes("data");
    assert("RIFF"@.len() == 4 && "WAVE"@.len() == 4 && "fmt "@.len() == 4 && "data"@.len() == 4);
    assert(is_ascii("RIFF"));
    assert(is_ascii("WAVE"));
    assert(is_ascii("fmt "));
    assert(is_ascii("data"));
}

/// A sound file is the head of 44 bytes and the sound, and its two lengths are
/// those of what follows them.
pub proof fn wav_tells_its_length(raw: Seq<u8>)
    requires
        36 + raw.len() <= u32::MAX,
    ensures
        ({
            let wav = wav_header(raw.len()) + raw;
            &&& wav.len() == 44 + raw.len()
            &&& wav.skip(44) == raw
            &&& wav.take(4) == "RIFF".spec_bytes()
            &&& number_in(wav.subrange(4, 8)) == wav.len() - 8
            &&& wav.subrange(8, 12) == "WAVE".spec_bytes()
            &&& number_in(wav.subrange(40, 44)) == wav.len() - 44
        }),
{
    let wav = wav_header(raw.len()) + raw;
    tags_are_short();
    assert(wav.skip(44) =~= raw);
    assert(wav.take(4) =~= "RIFF".spec_bytes());
    assert(wav.subrange(4, 8) =~= four_bytes(36 + raw.len()));
    assert(wav.subrange(8, 12) =~= "WAVE".spec_bytes());
    assert(wav.subrange(40, 44) =~= four_bytes(raw.len()));
    four_bytes_read_back(36 + raw.len());
    four_bytes_read_back(raw.len());
}

/// A command to run: the program and what it is told.
#[derive(Debug)]
pub struct CommandLine {
    pub program: String,
    pub args: Vec<String>,
}

impl CommandLine {
    /// Whether the command is this program with these arguments.
    pub open spec fn runs(self, program: Seq<char>, args: Seq<Seq<char>>) -> bool {
        self.program@ == program && texts_of(self.args@) =~= args
    }
}

fn no_args() -> (args: Vec<String>)
    ensures
        texts_of(args@) == Seq::<Seq<char>>::empty(),
{
    let args: Vec<String> = Vec::new();
    assert(texts_of(args@) =~= Seq::<Seq<char>>::empty());
    args
}

/// The command that records from the configured source.
pub fn build_recording_command(config: &AppConfig) -> (command: CommandLine)
    ensures
        command.runs(
            "parec"@,
            seq![
                "--client-name=whisper-gtk"@,
                "--format=s16le"@,
                "--channels=1"@,
                "--rate=16000"@,
                "--latency-msec=30"@,
            ] + (match config@.audio_source {
                Some(source) => seq!["-d"@, source],
                None => Seq::empty(),
            }),
        ),
{
    let mut args: Vec<String> = no_args();
    push_text(&mut args, "--client-name=whisper-gtk");
    push_text(&mut args, "--format=s16le");
    push_text(&mut args, "--channels=1");
    push_text(&mut args, "--rate=16000");
    push_text(&mut args, "--latency-msec=30");
    let ghost fixed = texts_of(args@);
    match &config.audio_source {
        Some(source) => {
            push_text(&mut args, "-d");
            push_text(&mut args, source.as_str());
            assert(texts_of(args@) =~= fixed + seq!["-d"@, source@]);
        },
        None => {
            assert(texts_of(args@) =~= fixed + Seq::empty());
        },
    }
    CommandLine { program: "parec".to_owned(), args }
}

/// The command that transcribes a sound file.
pub fn build_transcribe_command(wav_path: &str) -> (command: CommandLine)
    ensures
        command.runs(
            "whisper.cpp-base.en"@,
            seq!["-np"@, "-nt"@, "-ac"@, "1500"@, "-mc"@, "50"@, wav_path@],
        ),
{
    let mut args: Vec<String> = no_args();
    push_text(&mut args, "-np");
    push_text(&mut args, "-nt");
    push_text(&mut args, "-ac");
    push_text(&mut args, "1500");
    push_text(&mut args, "-mc");
    push_text(&mut args, "50");
    push_text(&mut args, wav_path);
    CommandLine { program: "whisper.cpp-base.en".to_owned(), args }
}

/// The command that moves the window with a title.
pub fn build_position_command(title: &str, x: i32, y: i32) -> (command: CommandLine)
    ensures
        command.runs(
            "xdotool"@,
            seq![
                "search"@,
                "--name"@,
                title@,
                "windowraise"@,
                "windowmove"@,
                text::signed_decimal(x as int),
                text::signed_decimal(y as int),
            ],
        ),
{
    let mut args: Vec<String> = no_args();
    push_text(&mut args, "search");
    push_text(&mut args, "--name");
    push_text(&mut args, title);
    push_text(&mut args, "windowraise");
    push_text(&mut args, "windowmove");
    push_text(&mut args, text::signed_text(x as i64).as_str());
    push_text(&mut args, text::signed_text(y as i64).as_str());
    CommandLine { program: "xdotool".to_owned(), args }
}

/// The number in four bytes, the low one first.
proof fn four_bytes_add_up(n: nat)
    requires
        n <= u32::MAX,
    ensures
        four_bytes(n).len() == 4,
        four_bytes(n)[0] + 0x100 * four_bytes(n)[1] + 0x1_0000 * four_bytes(n)[2] + 0x100_0000
            * four_bytes(n)[3] == n,
{
}

/// Behind its tag and length a sound file has a format part of 16 bytes that tells
/// of plain samples, one channel, 16000 samples and 32000 bytes a second, two
/// bytes to a sample and 16 bits. Then come the sound's tag and its length.
pub proof fn wav_tells_its_format(data_len: nat)
    requires
        36 + data_len <= u32::MAX,
    ensures
        ({
            let head = wav_header(data_len);
            &&& head.len() == 44
            &&& head.subrange(0, 4) == "RIFF".spec_bytes()
            &&& head[4] + 0x100 * head[5] + 0x1_0000 * head[6] + 0x100_0000 * head[7] == 36
                + data_len
            &&& head.subrange(8, 12) == "WAVE".spec_bytes()
            &&& head.subrange(12, 16) == "fmt ".spec_bytes()
            &&& head[16] == 16 && head[17] == 0 && head[18] == 0 && head[19] == 0
            &&& head[20] == 1 && head[21] == 0
            &&& head[22] == 1 && head[23] == 0
            &&& head[24] + 0x100 * head[25] + 0x1_0000 * head[26] + 0x100_0000 * head[27] == 16_000
            &&& head[28] + 0x100 * head[29] + 0x1_0000 * head[30] + 0x100_0000 * head[31] == 32_000
            &&& head[32] == 2 && head[33] == 0
            &&& head[34] == 16 && head[35] == 0
            &&& head.subrange(36, 40) == "data".spec_bytes()
            &&& head[40] + 0x100 * head[41] + 0x1_0000 * head[42] + 0x100_0000 * head[43]
                == data_len
        }),
{
    let head = wav_header(data_len);
    tags_are_short();
    four_bytes_add_up(36 + data_len);
    four_bytes_add_up(16);
    four_bytes_add_up(16_000);
    four_bytes_add_up(32_000);
    four_bytes_add_up(data_len);
    assert(head.len() == 44);
    assert(head.subrange(0, 4) =~= "RIFF".spec_bytes());
    assert(head.subrange(8, 12) =~= "WAVE".spec_bytes());
    assert(head.subrange(12, 16) =~= "fmt ".spec_bytes());
    assert(head.subrange(36, 40) =~= "data".spec_bytes());
    assert(head.subrange(4, 8) =~= four_bytes(36 + data_len));
    assert(head.subrange(16, 20) =~= four_bytes(16));
    assert(head.subrange(20, 22) =~= two_bytes(1));
    assert(head.subrange(22, 24) =~= two_bytes(1));
    assert(head.subrange(24, 28) =~= four_bytes(16_000));
    assert(head.subrange(28, 32) =~= four_bytes(32_000));
    assert(head.subrange(32, 34) =~= two_bytes(2));
    assert(head.subrange(34, 36) =~= two_bytes(16));
    assert(head.subrange(40, 44) =~= four_bytes(data_len));
    assert(head[4] == head.subrange(4, 8)[0] && head[5] == head.subrange(4, 8)[1] && head[6]
        == head.subrange(4, 8)[2] && head[7] == head.subrange(4, 8)[3]);
    assert(head[16] == head.subrange(16, 20)[0] && head[17] == head.subrange(16, 20)[1] && head[18]
        == head.subrange(16, 20)[2] && head[19] == head.subrange(16, 20)[3]);
    assert(head[20] == head.subrange(20, 22)[0] && head[21] == head.subrange(20, 22)[1]);
    assert(head[22] == head.subrange(22, 24)[0] && head[23] == head.subrange(22, 24)[1]);
    assert(head[24] == head.subrange(24, 28)[0] && head[25] == head.subrange(24, 28)[1] && head[26]
        == head.subrange(24, 28)[2] && head[27] == head.subrange(24, 28)[3]);
    assert(head[28] == head.subrange(28, 32)[0] && head[29] == head.subrange(28, 32)[1] && head[30]
        == head.subrange(28, 32)[2] && head[31] == head.subrange(28, 32)[3]);
    assert(head[32] == head.subrange(32, 34)[0] && head[33] == head.subrange(32, 34)[1]);
    assert(head[34] == head.subrange(34, 36)[0] && head[35] == head.subrange(34, 36)[1]);
    assert(head[40] == head.subrange(40, 44)[0] && head[41] == head.subrange(40, 44)[1] && head[42]
        == head.subrange(40, 44)[2] && head[43] == head.subrange(40, 44)[3]);
}

/// A recording that begins has the number that follows the last one, and one that
/// ends leaves the numbers as they are.
pub proof fn recordings_are_counted(state: RecordingGeneration, generation: u64)
    ensures
        state.next < u64::MAX ==> state.begun().next == state.next + 1,
        state.next == u64::MAX ==> state.begun().next == u64::MAX,
        state.begun().current == Some(state.begun().next),
        state.ended(generation).next == state.next,
        state.current == Some(generation) ==> state.ended(generation).current is None,
        state.current != Some(generation) ==> state.ended(generation).current == state.current,
{
}

/// What was captured from some bytes has a sample for every two of them, counts
/// those bytes, and keeps the last byte of an odd number.
pub proof fn captured_sound_is_complete(captured: CapturedRecording, bytes: Seq<u8>)
    requires
        captured.holds(bytes),
    ensures
        captured.samples@.len() == bytes.len() / 2,
        captured.stats.bytes == bytes.len() - bytes.len() % 2,
        captured.stats.speech_bytes <= captured.stats.bytes,
        bytes.len() % 2 == 1 ==> captured.carry == Some(bytes[bytes.len() - 1]),
        bytes.len() % 2 == 0 ==> captured.carry is None,
        forall|i: int|
            0 <= i < captured.samples@.len() ==> #[trigger] captured.samples@[i] == sample_pattern(
                samples_in(bytes)[i],
            ),
{
}

/// A command is its program and its arguments, all of them and in their order.
pub proof fn commands_are_run_as_told(
    command: CommandLine,
    program: Seq<char>,
    args: Seq<Seq<char>>,
)
    ensures
        command.runs(program, args) <==> command.program@ == program && command.args@.len()
            == args.len() && forall|i: int|
            0 <= i < args.len() ==> (#[trigger] command.args@[i])@ == args[i],
{
    let said = texts_of(command.args@);
    assert(said.len() == command.args@.len());
    if command.runs(program, args) {
        assert forall|i: int| 0 <= i < args.len() implies (#[trigger] command.args@[i])@ == args[i] by {
            assert(said[i] == command.args@[i]@);
        }
    }
    if command.args@.len() == args.len() && forall|i: int|
        0 <= i < args.len() ==> (#[trigger] command.args@[i])@ == args[i] {
        assert(said =~= args);
    }
}

} // verus!
