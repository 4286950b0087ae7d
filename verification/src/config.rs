//! The configuration: its defaults, the bounds it is brought into, where it is
//! stored, and the count of processor cores that the defaults rest on.

use std::collections::BTreeSet;

use vstd::prelude::*;
use vstd::slice::slice_subrange;
use vstd::string::StringSliceAdditionalSpecFns;

use crate::text;

verus! {

/// How long a recording lasts at most where nothing is configured, in seconds.
pub const DEFAULT_MAX_RECORDING_SECS: u32 = 30;

/// The least that the length of a recording can be limited to.
pub const MIN_MAX_RECORDING_SECS: u32 = 5;

/// The most that the length of a recording can be limited to.
pub const MAX_MAX_RECORDING_SECS: u32 = 180;

/// A core is told by the number of its package and its number in the package.
pub open spec fn core_identity(physical_id: u32, core_id: u32) -> u64 {
    (physical_id * 0x1_0000_0000 + core_id) as u64
}

/// Whether a line separates blocks: there is nothing but whitespace on it.
pub open spec fn separates(line: Seq<char>) -> bool {
    text::trimmed(line).len() == 0
}

/// Whether a line gives a value to a name: the text before its first colon is the
/// name.
pub open spec fn gives(line: Seq<char>, name: Seq<char>) -> bool {
    let line = text::trimmed(line);
    let colon = text::first_index(line, ':');
    colon < line.len() && text::trimmed(line.take(colon)) == name
}

/// The number that a line gives, where the text behind its first colon is one.
pub open spec fn given_number(line: Seq<char>) -> Option<u32> {
    let line = text::trimmed(line);
    text::unsigned_value(text::trimmed(line.skip(text::first_index(line, ':') + 1)))
}

/// The number that the last line with a name gives.
pub open spec fn last_number(block: Seq<Seq<char>>, name: Seq<char>) -> Option<u32>
    decreases block.len(),
{
    if block.len() == 0 {
        None
    } else if gives(block.last(), name) {
        given_number(block.last())
    } else {
        last_number(block.drop_last(), name)
    }
}

/// The two numbers of a block: that of the package, and that of the core in it.
pub open spec fn block_numbers(block: Seq<Seq<char>>) -> (Option<u32>, Option<u32>) {
    (last_number(block, "physical id"@), last_number(block, "core id"@))
}

/// Whether two numbers tell of a core.
pub open spec fn tell(numbers: (Option<u32>, Option<u32>), core: u64) -> bool {
    numbers matches (Some(physical_id), Some(core_id)) && core == core_identity(
        physical_id,
        core_id,
    )
}

/// The blocks of some lines: the runs of lines between those that separate.
pub open spec fn blocks(lines: Seq<Seq<char>>) -> Seq<Seq<Seq<char>>>
    decreases lines.len(),
{
    if lines.len() == 0 {
        seq![Seq::empty()]
    } else {
        let before = blocks(lines.drop_last());
        if separates(lines.last()) {
            before.push(Seq::empty())
        } else {
            before.drop_last().push(before.last().push(lines.last()))
        }
    }
}

/// The cores that some blocks tell of.
pub open spec fn cores_of(blocks: Seq<Seq<Seq<char>>>) -> Set<u64> {
    Set::new(
        |core: u64|
            exists|i: int|
                0 <= i < blocks.len() && tell(block_numbers(#[trigger] blocks[i]), core),
    )
}

/// The blocks of a processor description.
pub open spec fn described_blocks(cpuinfo: Seq<char>) -> Seq<Seq<Seq<char>>> {
    blocks(text::split(cpuinfo, '\n'))
}

/// The cores that a processor description tells of.
pub open spec fn described_cores(cpuinfo: Seq<char>) -> Set<u64> {
    cores_of(described_blocks(cpuinfo))
}

/// Two cores are the same exactly when both their numbers are.
pub proof fn core_identity_is_injective(p: u32, c: u32, q: u32, d: u32)
    ensures
        core_identity(p, c) == core_identity(q, d) <==> p == q && c == d,
{
}

proof fn some_block(lines: Seq<Seq<char>>)
    ensures
        blocks(lines).len() > 0,
    decreases lines.len(),
{
    if lines.len() > 0 {
        some_block(lines.drop_last());
    }
}

proof fn blocks_join(a: Seq<Seq<char>>, line: Seq<char>, b: Seq<Seq<char>>)
    requires
        separates(line),
    ensures
        blocks(a.push(line) + b) == blocks(a) + blocks(b),
    decreases b.len(),
{
    let all = a.push(line) + b;
    if b.len() == 0 {
        assert(all =~= a.push(line));
        assert(a.push(line).drop_last() =~= a);
        assert(blocks(all) =~= blocks(a) + blocks(b));
    } else {
        assert(all.drop_last() =~= a.push(line) + b.drop_last());
        assert(all.last() == b.last());
        blocks_join(a, line, b.drop_last());
        some_block(b.drop_last());
        assert(blocks(all) =~= blocks(a) + blocks(b));
    }
}

proof fn cores_join(a: Seq<Seq<Seq<char>>>, b: Seq<Seq<Seq<char>>>)
    ensures
        cores_of(a + b) == cores_of(a).union(cores_of(b)),
{
    let all = a + b;
    assert forall|core: u64| cores_of(all).contains(core) <==> #[trigger] cores_of(a).union(
        cores_of(b),
    ).contains(core) by {
        if cores_of(all).contains(core) {
            let i = choose|i: int|
                0 <= i < all.len() && tell(block_numbers(#[trigger] all[i]), core);
            if i < a.len() {
                assert(tell(block_numbers(a[i]), core));
            } else {
                assert(tell(block_numbers(b[i - a.len()]), core));
            }
        }
        if cores_of(a).contains(core) {
            let i = choose|i: int| 0 <= i < a.len() && tell(block_numbers(#[trigger] a[i]), core);
            assert(tell(block_numbers(all[i]), core));
        }
        if cores_of(b).contains(core) {
            let i = choose|i: int| 0 <= i < b.len() && tell(block_numbers(#[trigger] b[i]), core);
            assert(tell(block_numbers(all[a.len() + i]), core));
        }
    }
    assert(cores_of(all) =~= cores_of(a).union(cores_of(b)));
}

/// Two descriptions with a blank line between them.
pub open spec fn with_blank_line(a: Seq<char>, blank: Seq<char>, b: Seq<char>) -> Seq<char> {
    a.push('\n') + (blank.push('\n') + b)
}

/// Two descriptions with a blank line between them tell of the cores of both.
pub proof fn descriptions_join(a: Seq<char>, blank: Seq<char>, b: Seq<char>)
    requires
        separates(blank),
        !blank.contains('\n'),
    ensures
        described_blocks(with_blank_line(a, blank, b)) == described_blocks(a) + described_blocks(b),
        described_cores(with_blank_line(a, blank, b)) == described_cores(a).union(
            described_cores(b),
        ),
{
    let first = text::split(a, '\n');
    let second = text::split(b, '\n');
    text::split_joins(a, blank.push('\n') + b, '\n');
    text::split_joins(blank, b, '\n');
    text::split_of_one_piece(blank, '\n');
    assert(first + (seq![blank] + second) =~= first.push(blank) + second);
    blocks_join(first, blank, second);
    cores_join(blocks(first), blocks(second));
}

/// The order of two descriptions does not matter, nor whether one is repeated.
pub proof fn descriptions_can_be_swapped_and_repeated(a: Seq<char>, blank: Seq<char>, b: Seq<char>)
    requires
        separates(blank),
        !blank.contains('\n'),
    ensures
        described_cores(with_blank_line(a, blank, b)) == described_cores(
            with_blank_line(b, blank, a),
        ),
        described_cores(with_blank_line(a, blank, a)) == described_cores(a),
{
    descriptions_join(a, blank, b);
    descriptions_join(b, blank, a);
    descriptions_join(a, blank, a);
    assert(described_cores(a).union(described_cores(b)) =~= described_cores(b).union(
        described_cores(a),
    ));
    assert(described_cores(a).union(described_cores(a)) =~= described_cores(a));
}

proof fn cores_within(a: Seq<Seq<Seq<char>>>, b: Seq<Seq<Seq<char>>>)
    requires
        forall|i: int| 0 <= i < a.len() ==> b.contains(#[trigger] a[i]),
    ensures
        cores_of(a).subset_of(cores_of(b)),
{
    assert forall|core: u64| cores_of(a).contains(core) implies cores_of(b).contains(core) by {
        let i = choose|i: int| 0 <= i < a.len() && tell(block_numbers(#[trigger] a[i]), core);
        assert(b.contains(a[i]));
        let j = choose|j: int| 0 <= j < b.len() && b[j] == a[i];
        assert(tell(block_numbers(b[j]), core));
    }
}

/// Descriptions with the same blocks tell of the same cores, in whatever order and
/// however often the blocks stand there.
pub proof fn only_the_blocks_matter(a: Seq<char>, b: Seq<char>)
    requires
        forall|i: int|
            0 <= i < described_blocks(a).len() ==> described_blocks(b).contains(
                #[trigger] described_blocks(a)[i],
            ),
        forall|i: int|
            0 <= i < described_blocks(b).len() ==> described_blocks(a).contains(
                #[trigger] described_blocks(b)[i],
            ),
    ensures
        described_cores(a) == described_cores(b),
{
    cores_within(described_blocks(a), described_blocks(b));
    cores_within(described_blocks(b), described_blocks(a));
    assert(described_cores(a) =~= described_cores(b));
}

proof fn other_line_in_blocks(a: Seq<Seq<char>>, line: Seq<char>, b: Seq<Seq<char>>)
    requires
        !separates(line),
        !gives(line, "physical id"@),
        !gives(line, "core id"@),
    ensures
        blocks(a.push(line) + b).len() == blocks(a + b).len(),
        forall|i: int|
            0 <= i < blocks(a + b).len() ==> block_numbers(#[trigger] blocks(a + b)[i])
                == block_numbers(blocks(a.push(line) + b)[i]),
    decreases b.len(),
{
    let with = a.push(line) + b;
    let without = a + b;
    if b.len() == 0 {
        assert(with =~= a.push(line));
        assert(without =~= a);
        assert(a.push(line).drop_last() =~= a);
        some_block(a);
        let block = blocks(a).last();
        assert(block.push(line).drop_last() =~= block);
        assert(blocks(with).last() == block.push(line));
    } else {
        let front = b.drop_last();
        let last = b.last();
        assert(with.drop_last() =~= a.push(line) + front);
        assert(without.drop_last() =~= a + front);
        other_line_in_blocks(a, line, front);
        some_block(a + front);
        if !separates(last) {
            let k = blocks(a + front).len() - 1;
            let one = blocks(a + front)[k];
            let other = blocks(a.push(line) + front)[k];
            assert(block_numbers(one) == block_numbers(other));
            assert(one.push(last).drop_last() =~= one);
            assert(other.push(last).drop_last() =~= other);
            assert(block_numbers(one.push(last)) == block_numbers(other.push(last)));
        }
        assert forall|i: int| 0 <= i < blocks(without).len() implies block_numbers(
            #[trigger] blocks(without)[i],
        ) == block_numbers(blocks(with)[i]) by {
            if i < blocks(a + front).len() {
                assert(block_numbers(blocks(a + front)[i]) == block_numbers(
                    blocks(a.push(line) + front)[i],
                ));
            }
        }
    }
}

/// A line that gives a value to neither of the two names, and separates nothing,
/// does not matter.
pub proof fn other_lines_do_not_matter(a: Seq<char>, line: Seq<char>, b: Seq<char>)
    requires
        !line.contains('\n'),
        !separates(line),
        !gives(line, "physical id"@),
        !gives(line, "core id"@),
    ensures
        described_cores(a.push('\n') + (line.push('\n') + b)) == described_cores(
            a.push('\n') + b,
        ),
{
    let first = text::split(a, '\n');
    let second = text::split(b, '\n');
    text::split_joins(a, line.push('\n') + b, '\n');
    text::split_joins(line, b, '\n');
    text::split_joins(a, b, '\n');
    text::split_of_one_piece(line, '\n');
    assert(first + (seq![line] + second) =~= first.push(line) + second);
    other_line_in_blocks(first, line, second);
    let with = blocks(first.push(line) + second);
    let without = blocks(first + second);
    assert forall|core: u64| cores_of(with).contains(core) == #[trigger] cores_of(
        without,
    ).contains(core) by {
        if cores_of(with).contains(core) {
            let i = choose|i: int|
                0 <= i < with.len() && tell(block_numbers(#[trigger] with[i]), core);
            assert(tell(block_numbers(without[i]), core));
        }
        if cores_of(without).contains(core) {
            let i = choose|i: int|
                0 <= i < without.len() && tell(block_numbers(#[trigger] without[i]), core);
            assert(tell(block_numbers(with[i]), core));
        }
    }
    assert(cores_of(with) =~= cores_of(without));
}

/// A line break at the end of a description does not change what it tells.
pub proof fn trailing_newline_does_not_matter(cpuinfo: Seq<char>)
    ensures
        described_cores(cpuinfo.push('\n')) == described_cores(cpuinfo),
{
    let none = Seq::<char>::empty();
    let lines = text::split(cpuinfo, '\n');
    text::split_joins(cpuinfo, none, '\n');
    text::split_of_one_piece(none, '\n');
    assert(cpuinfo.push('\n') + none =~= cpuinfo.push('\n'));
    assert(text::trimmed(none) == none);
    assert(lines + seq![none] =~= lines.push(none) + Seq::<Seq<char>>::empty());
    blocks_join(lines, none, Seq::empty());
    cores_join(blocks(lines), blocks(Seq::empty()));
    let empty = blocks(Seq::<Seq<char>>::empty());
    assert(block_numbers(empty[0]) == (None::<u32>, None::<u32>));
    assert(cores_of(blocks(lines)).union(cores_of(empty)) =~= cores_of(blocks(lines)));
}

/// The number of cores that a processor description tells of, where it tells of
/// any.
pub fn physical_core_count_from_cpuinfo(cpuinfo: &str) -> (count: Option<u32>)
    ensures
        count == (if described_cores(cpuinfo@).len() == 0 {
            None
        } else {
            Some(described_cores(cpuinfo@).len() as u32)
        }),
{
    physical_core_count_from_cpuinfo_internal(cpuinfo)
}

fn finalize(
    cores: &mut BTreeSet<u64>,
    physical_id: &mut Option<u32>,
    core_id: &mut Option<u32>,
)
    ensures
        forall|core: u64| #[trigger]
            final(cores)@.contains(core) <==> old(cores)@.contains(core) || tell(
                (*old(physical_id), *old(core_id)),
                core,
            ),
        *final(physical_id) is None,
        *final(core_id) is None,
        old(cores)@.finite() ==> final(cores)@.finite(),
{
    if let (Some(package), Some(core)) = (*physical_id, *core_id) {
        cores.insert(package as u64 * 0x1_0000_0000 + core as u64);
    }
    *physical_id = None;
    *core_id = None;
}

proof fn block_is_closed(
    before: Seq<Seq<Seq<char>>>,
    block: Seq<Seq<char>>,
    cores: Set<u64>,
)
    requires
        forall|core: u64| #[trigger]
            cores.contains(core) <==> cores_of(before).contains(core) || tell(
                block_numbers(block),
                core,
            ),
    ensures
        cores == cores_of(before.push(block)),
{
    let all = before.push(block);
    assert(before + seq![block] =~= all);
    cores_join(before, seq![block]);
    assert forall|core: u64| #[trigger] cores_of(seq![block]).contains(core) <==> tell(
        block_numbers(block),
        core,
    ) by {
        if tell(block_numbers(block), core) {
            assert(tell(block_numbers(seq![block][0]), core));
        }
    }
    assert(cores =~= cores_of(all));
}

fn physical_core_count_from_cpuinfo_internal(cpuinfo: &str) -> (count: Option<u32>)
    ensures
        count == (if described_cores(cpuinfo@).len() == 0 {
            None
        } else {
            Some(described_cores(cpuinfo@).len() as u32)
        }),
{
    let mut cores: BTreeSet<u64> = BTreeSet::new();
    let mut physical_id: Option<u32> = None;
    let mut core_id: Option<u32> = None;
    let chars = text::chars_of(cpuinfo);
    let lines = text::split_chars(chars.as_slice(), '\n');
    let ghost all = text::split(cpuinfo@, '\n');
    proof {
        names_differ();
        assert(all.take(0) == Seq::<Seq<char>>::empty());
        assert(blocks(all.take(0)).drop_last() =~= Seq::<Seq<Seq<char>>>::empty());
        assert(cores@ =~= cores_of(blocks(all.take(0)).drop_last()));
    }
    for i in 0..lines.len()
        invariant
            "physical id"@ != "core id"@,
            lines@.len() == all.len(),
            forall|j: int| 0 <= j < lines@.len() ==> (#[trigger] lines@[j])@ == all[j],
            cores@ == cores_of(blocks(all.take(i as int)).drop_last()),
            (physical_id, core_id) == block_numbers(blocks(all.take(i as int)).last()),
            cores@.finite(),
    {
        let ghost before = blocks(all.take(i as int));
        let ghost whole = all[i as int];
        proof {
            assert(all.take(i + 1).drop_last() == all.take(i as int));
            assert(all.take(i + 1).last() == whole);
            some_block(all.take(i as int));
            assert(before.last().push(whole).drop_last() == before.last());
            text::first_index_bounds(text::trimmed(whole), ':');
        }
        let line = text::trim_chars(lines[i]);
        if line.len() == 0 {
            finalize(&mut cores, &mut physical_id, &mut core_id);
            proof {
                block_is_closed(before.drop_last(), before.last(), cores@);
                assert(before.drop_last().push(before.last()) =~= before);
                assert(before.push(Seq::empty()).drop_last() =~= before);
            }
        } else {
            proof {
                assert(before.drop_last().push(before.last().push(whole)).drop_last()
                    =~= before.drop_last());
            }
            match text::find_char(line, ':') {
                Some(colon) => {
                    let name = slice_subrange(line, 0, colon);
                    let rest = slice_subrange(line, colon + 1, line.len());
                    assert(name@ == line@.take(colon as int));
                    assert(rest@ == line@.skip(colon + 1));
                    let key = text::string_of(text::trim_chars(name));
                    let value = text::trim_chars(rest);
                    if text::same_text(key.as_str(), "physical id") {
                        physical_id = text::parse_unsigned(value);
                    } else if text::same_text(key.as_str(), "core id") {
                        core_id = text::parse_unsigned(value);
                    }
                },
                None => {},
            }
        }
    }
    assert(all.take(all.len() as int) == all);
    finalize(&mut cores, &mut physical_id, &mut core_id);
    proof {
        let found = blocks(all);
        some_block(all);
        block_is_closed(found.drop_last(), found.last(), cores@);
        assert(found.drop_last().push(found.last()) =~= found);
    }
    if cores.is_empty() {
        assert(cores@.len() == 0);
        None
    } else {
        assert(cores@.len() != 0) by {
            if cores@.len() == 0 {
                assert(cores@ =~= Set::empty());
            }
        }
        Some(cores.len() as u32)
    }
}

proof fn names_differ()
    ensures
        "physical id"@ != "core id"@,
{
    reveal_strlit("physical id");
    reveal_strlit("core id");
    assert("physical id"@.len() == 11);
    assert("core id"@.len() == 7);
}

/// What the machine tells the program before anything is configured.
#[derive(Debug, Clone)]
pub struct Host {
    /// The processor description, empty where there is none.
    pub cpuinfo: String,
    /// How many threads can run at once, where that is known.
    pub parallelism: Option<u32>,
    /// The name of the default sound source, where there is one.
    pub audio_source: Option<String>,
}

/// The number of processor cores: as described, else as many as threads can run
/// at once, and at least one.
pub open spec fn core_count(cpuinfo: Seq<char>, parallelism: Option<u32>) -> u32 {
    let count = if described_cores(cpuinfo).len() > 0 {
        described_cores(cpuinfo).len() as u32
    } else {
        match parallelism {
            Some(n) => n,
            None => 1,
        }
    };
    if count < 1 {
        1
    } else {
        count
    }
}

/// The number of processor cores.
pub fn physical_core_count(cpuinfo: &str, parallelism: Option<u32>) -> (count: u32)
    ensures
        count == core_count(cpuinfo@, parallelism),
{
    let count: u32 = match physical_core_count_from_cpuinfo_internal(cpuinfo) {
        Some(described) => described,
        None => match parallelism {
            Some(n) => n,
            None => 1,
        },
    };
    if count < 1 {
        1
    } else {
        count
    }
}

/// How the text of a transcription reaches the focused window.
#[derive(Debug, Clone, Copy, PartialEq, Eq, Structural)]
pub enum OutputMode {
    DirectTyping,
    ClipboardPaste,
}

impl Default for OutputMode {
    fn default() -> (mode: Self)
        ensures
            mode == OutputMode::DirectTyping,
    {
        OutputMode::DirectTyping
    }
}

/// The configuration of the program.
#[derive(Debug, Clone, PartialEq, Eq)]
pub struct AppConfig {
    pub hotkey: String,
    pub audio_source: Option<String>,
    pub output_mode: OutputMode,
    pub max_recording_secs: u32,
    pub model_path: Option<String>,
    pub whisper_threads: u32,
}

/// The text of a string that may be absent.
pub open spec fn text_of(s: Option<String>) -> Option<Seq<char>> {
    match s {
        Some(s) => Some(s@),
        None => None,
    }
}

/// What a configuration says.
#[verifier::ext_equal]
pub struct Settings {
    pub hotkey: Seq<char>,
    pub audio_source: Option<Seq<char>>,
    pub output_mode: OutputMode,
    pub max_recording_secs: u32,
    pub model_path: Option<Seq<char>>,
    pub whisper_threads: u32,
}

impl View for AppConfig {
    type V = Settings;

    open spec fn view(&self) -> Settings {
        Settings {
            hotkey: self.hotkey@,
            audio_source: text_of(self.audio_source),
            output_mode: self.output_mode,
            max_recording_secs: self.max_recording_secs,
            model_path: text_of(self.model_path),
            whisper_threads: self.whisper_threads,
        }
    }
}

/// The settings before anything is configured.
pub open spec fn default_settings(host: Host) -> Settings {
    Settings {
        hotkey: "<F8>"@,
        audio_source: text_of(host.audio_source),
        output_mode: OutputMode::DirectTyping,
        max_recording_secs: DEFAULT_MAX_RECORDING_SECS,
        model_path: None,
        whisper_threads: core_count(host.cpuinfo@, host.parallelism),
    }
}

/// The limit of a recording's length brought into its bounds.
pub open spec fn clamped_secs(secs: u32) -> u32 {
    if secs < MIN_MAX_RECORDING_SECS {
        MIN_MAX_RECORDING_SECS
    } else if secs > MAX_MAX_RECORDING_SECS {
        MAX_MAX_RECORDING_SECS
    } else {
        secs
    }
}

/// Settings brought into bounds: a hotkey that is not blank, a limit of the
/// recording's length within its bounds, and at least one thread.
pub open spec fn normal_settings(settings: Settings, host: Host) -> Settings {
    Settings {
        hotkey: if text::trimmed(settings.hotkey).len() == 0 {
            "<F8>"@
        } else {
            settings.hotkey
        },
        max_recording_secs: clamped_secs(settings.max_recording_secs),
        whisper_threads: if settings.whisper_threads == 0 {
            core_count(host.cpuinfo@, host.parallelism)
        } else {
            settings.whisper_threads
        },
        ..settings
    }
}

/// Whether settings are within their bounds.
pub open spec fn in_bounds(settings: Settings) -> bool {
    &&& text::trimmed(settings.hotkey).len() > 0
    &&& MIN_MAX_RECORDING_SECS <= settings.max_recording_secs <= MAX_MAX_RECORDING_SECS
    &&& settings.whisper_threads > 0
}

fn default_hotkey() -> (hotkey: String)
    ensures
        hotkey@ == "<F8>"@,
{
    "<F8>".to_owned()
}

fn default_audio_source(host: &Host) -> (source: Option<String>)
    ensures
        text_of(source) == text_of(host.audio_source),
{
    copy_text(&host.audio_source)
}

fn default_output_mode() -> (mode: OutputMode)
    ensures
        mode == OutputMode::DirectTyping,
{
    OutputMode::default()
}

fn default_max_recording_secs() -> (secs: u32)
    ensures
        secs == DEFAULT_MAX_RECORDING_SECS,
{
    DEFAULT_MAX_RECORDING_SECS
}

fn default_model_path() -> (path: Option<String>)
    ensures
        path is None,
{
    None
}

fn default_whisper_threads(host: &Host) -> (threads: u32)
    ensures
        threads == core_count(host.cpuinfo@, host.parallelism),
{
    physical_core_count(host.cpuinfo.as_str(), host.parallelism)
}

/// A copy of a string that may be absent.
pub fn copy_text(s: &Option<String>) -> (copy: Option<String>)
    ensures
        text_of(copy) == text_of(*s),
{
    match s {
        Some(s) => Some(s.clone()),
        None => None,
    }
}

/// A configuration as a file holds it. Each entry may be missing, and the two
/// that name something may be there and name nothing.
#[derive(Debug, Clone, PartialEq, Eq)]
pub struct StoredConfig {
    pub hotkey: Option<String>,
    pub audio_source: Option<Option<String>>,
    pub output_mode: Option<OutputMode>,
    pub max_recording_secs: Option<u32>,
    pub model_path: Option<Option<String>>,
    pub whisper_threads: Option<u32>,
}

/// What came of reading the configuration file.
#[derive(Debug, Clone, PartialEq, Eq)]
pub enum ConfigFile {
    /// There is no file that could be read.
    Unreadable,
    /// The file does not hold a configuration.
    Malformed,
    /// The file holds these entries.
    Holds(StoredConfig),
}

/// The settings of a stored configuration, with the default of each entry that
/// is missing.
pub open spec fn stored_settings(stored: StoredConfig, host: Host) -> Settings {
    let defaults = default_settings(host);
    Settings {
        hotkey: match stored.hotkey {
            Some(hotkey) => hotkey@,
            None => defaults.hotkey,
        },
        audio_source: match stored.audio_source {
            Some(source) => text_of(source),
            None => defaults.audio_source,
        },
        output_mode: match stored.output_mode {
            Some(mode) => mode,
            None => defaults.output_mode,
        },
        max_recording_secs: match stored.max_recording_secs {
            Some(secs) => secs,
            None => defaults.max_recording_secs,
        },
        model_path: match stored.model_path {
            Some(path) => text_of(path),
            None => defaults.model_path,
        },
        whisper_threads: match stored.whisper_threads {
            Some(threads) => threads,
            None => defaults.whisper_threads,
        },
    }
}

/// The settings that a configuration file gives.
pub open spec fn loaded_settings(file: ConfigFile, host: Host) -> Settings {
    match file {
        ConfigFile::Unreadable => default_settings(host),
        ConfigFile::Malformed => normal_settings(default_settings(host), host),
        ConfigFile::Holds(stored) => normal_settings(stored_settings(stored, host), host),
    }
}

/// A path with another name behind it.
pub open spec fn joined_path(base: Seq<u8>, name: Seq<u8>) -> Seq<u8> {
    if base.len() == 0 || base.last() == 0x2f {
        base + name
    } else {
        base.push(0x2f) + name
    }
}

/// The directory of the user's configuration: the one that is set, else the
/// usual one in the home directory, else the current directory.
pub open spec fn config_base(xdg_config_home: Option<Seq<u8>>, home: Option<Seq<u8>>) -> Seq<u8> {
    match xdg_config_home {
        Some(base) => base,
        None => match home {
            Some(home) => joined_path(home, ".config".spec_bytes()),
            None => ".".spec_bytes(),
        },
    }
}

/// The bytes of a slice that may be absent.
pub open spec fn bytes_of(s: Option<&[u8]>) -> Option<Seq<u8>> {
    match s {
        Some(s) => Some(s@),
        None => None,
    }
}

fn join_path(base: &[u8], name: &[u8]) -> (path: Vec<u8>)
    ensures
        path@ == joined_path(base@, name@),
{
    let mut path: Vec<u8> = Vec::new();
    text::append_bytes(&mut path, base);
    if base.len() > 0 && base[base.len() - 1] != 0x2f {
        path.push(0x2f);
    }
    text::append_bytes(&mut path, name);
    path
}

impl AppConfig {
    /// The configuration before anything is configured.
    pub fn default(host: &Host) -> (config: Self)
        ensures
            config@ == default_settings(*host),
    {
        AppConfig {
            hotkey: default_hotkey(),
            audio_source: default_audio_source(host),
            output_mode: default_output_mode(),
            max_recording_secs: default_max_recording_secs(),
            model_path: default_model_path(),
            whisper_threads: default_whisper_threads(host),
        }
    }

    /// The path of the configuration file, given the two places that the
    /// environment may name.
    pub fn path(xdg_config_home: Option<&[u8]>, home: Option<&[u8]>) -> (path: Vec<u8>)
        ensures
            path@ == joined_path(
                joined_path(
                    config_base(bytes_of(xdg_config_home), bytes_of(home)),
                    "whisper-gtk".spec_bytes(),
                ),
                "config.json".spec_bytes(),
            ),
    {
        let mut base: Vec<u8> = Vec::new();
        match xdg_config_home {
            Some(directory) => {
                text::append_bytes(&mut base, directory);
                assert(base@ == directory@);
            },
            None => match home {
                Some(home) => {
                    base = join_path(home, ".config".as_bytes());
                },
                None => {
                    text::append_bytes(&mut base, ".".as_bytes());
                    assert(base@ == ".".spec_bytes());
                },
            },
        }
        let directory = join_path(base.as_slice(), "whisper-gtk".as_bytes());
        join_path(directory.as_slice(), "config.json".as_bytes())
    }

    /// Brings the configuration into its bounds.
    pub fn normalize(&mut self, host: &Host)
        ensures
            final(self)@ == normal_settings(old(self)@, *host),
    {
        if text::is_blank(self.hotkey.as_str()) {
            self.hotkey = default_hotkey();
        }
        if self.max_recording_secs < MIN_MAX_RECORDING_SECS {
            self.max_recording_secs = MIN_MAX_RECORDING_SECS;
        } else if self.max_recording_secs > MAX_MAX_RECORDING_SECS {
            self.max_recording_secs = MAX_MAX_RECORDING_SECS;
        }
        if self.whisper_threads == 0 {
            self.whisper_threads = default_whisper_threads(host);
        }
    }

    /// The configuration that a file gives.
    pub fn load(file: ConfigFile, host: &Host) -> (config: Self)
        ensures
            config@ == loaded_settings(file, *host),
    {
        match file {
            ConfigFile::Unreadable => AppConfig::default(host),
            ConfigFile::Malformed => {
                let mut config = AppConfig::default(host);
                config.normalize(host);
                config
            },
            ConfigFile::Holds(stored) => {
                let mut config = AppConfig::from_stored(stored, host);
                config.normalize(host);
                config
            },
        }
    }

    fn from_stored(stored: StoredConfig, host: &Host) -> (config: Self)
        ensures
            config@ == stored_settings(stored, *host),
    {
        AppConfig {
            hotkey: match stored.hotkey {
                Some(hotkey) => hotkey,
                None => default_hotkey(),
            },
            audio_source: match stored.audio_source {
                Some(source) => source,
                None => default_audio_source(host),
            },
            output_mode: match stored.output_mode {
                Some(mode) => mode,
                None => default_output_mode(),
            },
            max_recording_secs: match stored.max_recording_secs {
                Some(secs) => secs,
                None => default_max_recording_secs(),
            },
            model_path: match stored.model_path {
                Some(path) => path,
                None => default_model_path(),
            },
            whisper_threads: match stored.whisper_threads {
                Some(threads) => threads,
                None => default_whisper_threads(host),
            },
        }
    }

    /// The entries to store: every one of them.
    pub fn save(&self) -> (stored: StoredConfig)
        ensures
            stored_as(self@, stored),
    {
        StoredConfig {
            hotkey: Some(self.hotkey.clone()),
            audio_source: Some(copy_text(&self.audio_source)),
            output_mode: Some(self.output_mode),
            max_recording_secs: Some(self.max_recording_secs),
            model_path: Some(copy_text(&self.model_path)),
            whisper_threads: Some(self.whisper_threads),
        }
    }
}

/// Whether stored entries are those of some settings, each of them there.
pub open spec fn stored_as(settings: Settings, stored: StoredConfig) -> bool {
    &&& stored.hotkey matches Some(hotkey) && hotkey@ == settings.hotkey
    &&& stored.audio_source matches Some(source) && text_of(source) == settings.audio_source
    &&& stored.output_mode == Some(settings.output_mode)
    &&& stored.max_recording_secs == Some(settings.max_recording_secs)
    &&& stored.model_path matches Some(path) && text_of(path) == settings.model_path
    &&& stored.whisper_threads == Some(settings.whisper_threads)
}

/// A configuration that is saved and loaded again is the one that was saved,
/// brought into its bounds; within its bounds it comes back unchanged, on
/// whatever machine.
pub proof fn saved_settings_come_back(settings: Settings, stored: StoredConfig, host: Host)
    requires
        stored_as(settings, stored),
    ensures
        loaded_settings(ConfigFile::Holds(stored), host) == normal_settings(settings, host),
        in_bounds(settings) ==> loaded_settings(ConfigFile::Holds(stored), host) == settings,
{
    assert(stored_settings(stored, host) =~= settings);
}

proof fn default_hotkey_is_not_blank()
    ensures
        text::trimmed("<F8>"@) == "<F8>"@,
        "<F8>"@.len() == 4,
{
    reveal_strlit("<F8>");
}

/// Normalizing brings every configuration into its bounds.
pub proof fn normal_settings_are_in_bounds(settings: Settings, host: Host)
    ensures
        in_bounds(normal_settings(settings, host)),
{
    default_hotkey_is_not_blank();
}

/// Normalizing changes nothing that is within its bounds, so doing it a second
/// time changes nothing.
pub proof fn normalizing_is_idempotent(settings: Settings, host: Host)
    ensures
        in_bounds(settings) ==> normal_settings(settings, host) == settings,
        normal_settings(normal_settings(settings, host), host) == normal_settings(settings, host),
{
    normal_settings_are_in_bounds(settings, host);
}

/// Whatever the configuration file is like, what is loaded is within its bounds.
pub proof fn loaded_settings_are_in_bounds(file: ConfigFile, host: Host)
    ensures
        in_bounds(loaded_settings(file, host)),
{
    default_hotkey_is_not_blank();
    match file {
        ConfigFile::Unreadable => {},
        ConfigFile::Malformed => {
            normal_settings_are_in_bounds(default_settings(host), host);
        },
        ConfigFile::Holds(stored) => {
            normal_settings_are_in_bounds(stored_settings(stored, host), host);
        },
    }
}

/// The text before the first colon of a line is its name, and the text behind that
/// colon its value, both without the whitespace round them. A line without a colon
/// gives nothing.
pub proof fn lines_give_values(before: Seq<char>, after: Seq<char>, name: Seq<char>)
    requires
        !before.contains(':'),
    ensures
        ({
            let line = before + seq![':'] + after;
            &&& gives(line, name) <==> text::trimmed(before) == name
            &&& given_number(line) == text::unsigned_value(text::trimmed(after))
        }),
        !gives(before, name),
{
    let line = before + seq![':'] + after;
    let mid = seq![':'];
    let front = text::trimmed_start(before);
    let back = text::trimmed_end(after);
    trimmed_round(before, after);
    let kept = text::trimmed(line);
    assert(kept == front + mid + back);
    text::trimmed_start_is_suffix(before);
    assert(!front.contains(':')) by {
        if front.contains(':') {
            let i = choose|i: int| 0 <= i < front.len() && front[i] == ':';
            assert(before[before.len() - front.len() + i] == ':');
        }
    }
    text::first_index_bounds(kept, ':');
    let colon = text::first_index(kept, ':');
    assert(kept[front.len() as int] == ':');
    assert(kept.contains(':'));
    assert(colon == front.len()) by {
        if colon < front.len() {
            assert(kept[colon] == front[colon]);
            assert(front.contains(':'));
        }
    }
    assert(kept.take(colon) =~= front);
    assert(kept.skip(colon + 1) =~= back);
    text::trimming_again(before);
    text::trimming_again(after);
    let whole = text::trimmed(before);
    text::first_index_bounds(whole, ':');
    if whole.contains(':') {
        text::trimmed_is_part(before, ':');
    }
}

proof fn trimmed_round(before: Seq<char>, after: Seq<char>)
    ensures
        text::trimmed(before + seq![':'] + after) == text::trimmed_start(before) + seq![':']
            + text::trimmed_end(after),
    decreases before.len() + after.len(),
{
    let line = before + seq![':'] + after;
    if before.len() > 0 && text::whitespace(before[0]) {
        assert(line[0] == before[0]);
        assert(line.skip(1) =~= before.skip(1) + seq![':'] + after);
        trimmed_round(before.skip(1), after);
    } else {
        if before.len() > 0 {
            assert(line[0] == before[0]);
        } else {
            assert(line[0] == ':');
        }
        assert(text::trimmed_start(line) == line);
        if after.len() > 0 && text::whitespace(after.last()) {
            assert(line.last() == after.last());
            assert(line.drop_last() =~= before + seq![':'] + after.drop_last());
            trimmed_round(before, after.drop_last());
            assert(text::trimmed_start(line.drop_last()) == line.drop_last()) by {
                assert(line.drop_last()[0] == line[0]);
            }
        } else {
            if after.len() > 0 {
                assert(line.last() == after.last());
            } else {
                assert(line.last() == ':');
            }
        }
    }
}

proof fn one_block(lines: Seq<Seq<char>>)
    requires
        forall|i: int| 0 <= i < lines.len() ==> !separates(#[trigger] lines[i]),
    ensures
        blocks(lines) == seq![lines],
    decreases lines.len(),
{
    if lines.len() > 0 {
        let before = lines.drop_last();
        assert forall|i: int| 0 <= i < before.len() implies !separates(#[trigger] before[i]) by {
            assert(before[i] == lines[i]);
        }
        one_block(before);
        assert(!separates(lines[lines.len() - 1]));
        assert(before.push(lines.last()) =~= lines);
        assert(blocks(lines) =~= seq![lines]);
    } else {
        assert(lines =~= Seq::<Seq<char>>::empty());
        assert(blocks(lines) =~= seq![lines]);
    }
}

proof fn last_number_is_last(lines: Seq<Seq<char>>, name: Seq<char>, i: int)
    requires
        0 <= i < lines.len(),
        gives(lines[i], name),
        forall|k: int| i < k < lines.len() ==> !gives(#[trigger] lines[k], name),
    ensures
        last_number(lines, name) == given_number(lines[i]),
    decreases lines.len(),
{
    if i < lines.len() - 1 {
        let before = lines.drop_last();
        assert(!gives(lines[lines.len() - 1], name));
        assert(before[i] == lines[i]);
        assert forall|k: int| i < k < before.len() implies !gives(#[trigger] before[k], name) by {
            assert(before[k] == lines[k]);
        }
        last_number_is_last(before, name, i);
    }
}

proof fn no_number_without_name(lines: Seq<Seq<char>>, name: Seq<char>)
    requires
        forall|k: int| 0 <= k < lines.len() ==> !gives(#[trigger] lines[k], name),
    ensures
        last_number(lines, name) is None,
    decreases lines.len(),
{
    if lines.len() > 0 {
        let before = lines.drop_last();
        assert(!gives(lines[lines.len() - 1], name));
        assert forall|k: int| 0 <= k < before.len() implies !gives(#[trigger] before[k], name) by {
            assert(before[k] == lines[k]);
        }
        no_number_without_name(before, name);
    }
}

proof fn cores_of_one_block(lines: Seq<Seq<char>>)
    ensures
        forall|core: u64| #[trigger]
            cores_of(seq![lines]).contains(core) <==> tell(block_numbers(lines), core),
{
    let all = seq![lines];
    assert forall|core: u64| #[trigger] cores_of(all).contains(core) <==> tell(
        block_numbers(lines),
        core,
    ) by {
        if tell(block_numbers(lines), core) {
            assert(tell(block_numbers(all[0]), core));
        }
    }
}

/// A description without blank lines tells of one core: the one whose package is
/// the number that the last line with `physical id` gives, and whose number in the
/// package is what the last line with `core id` gives. Where one of them is no
/// number, it tells of none.
pub proof fn one_block_tells_of_one_core(cpuinfo: Seq<char>, i: int, j: int)
    requires
        ({
            let lines = text::split(cpuinfo, '\n');
            &&& forall|k: int|
                0 <= k < lines.len() ==> text::trimmed(#[trigger] lines[k]).len() > 0
            &&& 0 <= i < lines.len() && gives(lines[i], "physical id"@)
            &&& forall|k: int| i < k < lines.len() ==> !gives(#[trigger] lines[k], "physical id"@)
            &&& 0 <= j < lines.len() && gives(lines[j], "core id"@)
            &&& forall|k: int| j < k < lines.len() ==> !gives(#[trigger] lines[k], "core id"@)
        }),
    ensures
        ({
            let lines = text::split(cpuinfo, '\n');
            match (given_number(lines[i]), given_number(lines[j])) {
                (Some(package), Some(core)) => described_cores(cpuinfo) == set![
                    (package * 0x1_0000_0000 + core) as u64,
                ],
                _ => described_cores(cpuinfo) == Set::<u64>::empty(),
            }
        }),
{
    let lines = text::split(cpuinfo, '\n');
    assert forall|k: int| 0 <= k < lines.len() implies !separates(#[trigger] lines[k]) by {}
    one_block(lines);
    last_number_is_last(lines, "physical id"@, i);
    last_number_is_last(lines, "core id"@, j);
    cores_of_one_block(lines);
    match (given_number(lines[i]), given_number(lines[j])) {
        (Some(package), Some(core)) => {
            assert(described_cores(cpuinfo) =~= set![(package * 0x1_0000_0000 + core) as u64]);
        },
        _ => {
            assert(described_cores(cpuinfo) =~= Set::<u64>::empty());
        },
    }
}

/// A description without blank lines that lacks one of the two names tells of no
/// core.
pub proof fn both_names_are_needed(cpuinfo: Seq<char>)
    requires
        ({
            let lines = text::split(cpuinfo, '\n');
            &&& forall|k: int|
                0 <= k < lines.len() ==> text::trimmed(#[trigger] lines[k]).len() > 0
            &&& (forall|k: int| 0 <= k < lines.len() ==> !gives(#[trigger] lines[k], "core id"@))
                || (forall|k: int|
                0 <= k < lines.len() ==> !gives(#[trigger] lines[k], "physical id"@))
        }),
    ensures
        described_cores(cpuinfo) == Set::<u64>::empty(),
{
    let lines = text::split(cpuinfo, '\n');
    assert forall|k: int| 0 <= k < lines.len() implies !separates(#[trigger] lines[k]) by {}
    one_block(lines);
    if forall|k: int| 0 <= k < lines.len() ==> !gives(#[trigger] lines[k], "core id"@) {
        no_number_without_name(lines, "core id"@);
    } else {
        no_number_without_name(lines, "physical id"@);
    }
    cores_of_one_block(lines);
    assert(described_cores(cpuinfo) =~= Set::<u64>::empty());
}

/// The cores that are described count, else the threads that can run at once, and
/// there is always one.
pub proof fn cores_are_counted(cpuinfo: Seq<char>, parallelism: Option<u32>)
    ensures
        0 < described_cores(cpuinfo).len() <= u32::MAX ==> core_count(cpuinfo, parallelism)
            == described_cores(cpuinfo).len(),
        described_cores(cpuinfo).len() == 0 ==> (parallelism matches Some(n) ==> (n > 0
            ==> core_count(cpuinfo, parallelism) == n)),
        described_cores(cpuinfo).len() == 0 && (parallelism is None || parallelism == Some(0u32))
            ==> core_count(cpuinfo, parallelism) == 1,
        core_count(cpuinfo, parallelism) >= 1,
{
}

/// A limit from 5 to 180 seconds stays, a shorter one becomes 5 seconds, and a
/// longer one 180.
pub proof fn limits_are_kept_between(secs: u32)
    ensures
        5 <= secs <= 180 ==> clamped_secs(secs) == secs,
        secs < 5 ==> clamped_secs(secs) == 5,
        secs > 180 ==> clamped_secs(secs) == 180,
{
}

/// Normalizing replaces a blank hotkey by F8, brings the limit between 5 and 180
/// seconds, and sets as many threads as there are cores where none are set. It
/// leaves everything else as it is.
pub proof fn normalizing_replaces_what_is_out_of_bounds(settings: Settings, host: Host)
    ensures
        ({
            let normal = normal_settings(settings, host);
            &&& text::blank(settings.hotkey) ==> normal.hotkey == "<F8>"@
            &&& !text::blank(settings.hotkey) ==> normal.hotkey == settings.hotkey
            &&& normal.max_recording_secs == (if settings.max_recording_secs < 5 {
                5
            } else if settings.max_recording_secs > 180 {
                180
            } else {
                settings.max_recording_secs
            })
            &&& settings.whisper_threads > 0 ==> normal.whisper_threads == settings.whisper_threads
            &&& settings.whisper_threads == 0 ==> normal.whisper_threads == core_count(
                host.cpuinfo@,
                host.parallelism,
            )
            &&& normal.audio_source == settings.audio_source
            &&& normal.model_path == settings.model_path
            &&& normal.output_mode == settings.output_mode
        }),
{
    text::blank_text_trims_to_nothing(settings.hotkey);
}

/// Before anything is configured the hotkey is F8, text is typed, a recording
/// lasts up to 30 seconds, the sound source is the default one, no model is named,
/// and there are as many threads as cores.
pub proof fn defaults_are_usable(host: Host)
    ensures
        ({
            let settings = default_settings(host);
            &&& settings.hotkey == "<F8>"@
            &&& settings.output_mode == OutputMode::DirectTyping
            &&& settings.max_recording_secs == 30
            &&& settings.model_path is None
            &&& settings.whisper_threads == core_count(host.cpuinfo@, host.parallelism)
            &&& match host.audio_source {
                Some(source) => settings.audio_source == Some(source@),
                None => settings.audio_source is None,
            }
        }),
{
}

/// Each entry that is stored counts, and each that is missing has its default,
/// whatever the others are. What is stored under a name that may be empty can be
/// nothing.
pub proof fn stored_entries_count(stored: StoredConfig, host: Host)
    ensures
        ({
            let settings = stored_settings(stored, host);
            let defaults = default_settings(host);
            &&& stored.hotkey matches Some(hotkey) ==> settings.hotkey == hotkey@
            &&& stored.hotkey is None ==> settings.hotkey == defaults.hotkey
            &&& stored.audio_source matches Some(Some(source)) ==> settings.audio_source == Some(
                source@,
            )
            &&& stored.audio_source matches Some(None) ==> settings.audio_source is None
            &&& stored.audio_source is None ==> settings.audio_source == defaults.audio_source
            &&& stored.output_mode matches Some(mode) ==> settings.output_mode == mode
            &&& stored.output_mode is None ==> settings.output_mode == defaults.output_mode
            &&& stored.max_recording_secs matches Some(secs) ==> settings.max_recording_secs == secs
            &&& stored.max_recording_secs is None ==> settings.max_recording_secs
                == defaults.max_recording_secs
            &&& stored.model_path matches Some(Some(path)) ==> settings.model_path == Some(path@)
            &&& stored.model_path matches Some(None) ==> settings.model_path is None
            &&& stored.model_path is None ==> settings.model_path is None
            &&& stored.whisper_threads matches Some(threads) ==> settings.whisper_threads == threads
            &&& stored.whisper_threads is None ==> settings.whisper_threads
                == defaults.whisper_threads
        }),
        loaded_settings(ConfigFile::Holds(stored), host) == normal_settings(
            stored_settings(stored, host),
            host,
        ),
{
}

/// Without a file that holds a configuration the defaults are loaded.
pub proof fn no_file_gives_the_defaults(host: Host)
    ensures
        loaded_settings(ConfigFile::Unreadable, host) == default_settings(host),
        loaded_settings(ConfigFile::Malformed, host) == default_settings(host),
{
    default_hotkey_is_not_blank();
    assert(normal_settings(default_settings(host), host) =~= default_settings(host));
}

/// A configuration says what its fields hold.
pub proof fn configurations_say_their_fields(config: AppConfig)
    ensures
        config@.hotkey == config.hotkey@,
        config.audio_source matches Some(source) ==> config@.audio_source == Some(source@),
        config.audio_source is None ==> config@.audio_source is None,
        config@.output_mode == config.output_mode,
        config@.max_recording_secs == config.max_recording_secs,
        config.model_path matches Some(path) ==> config@.model_path == Some(path@),
        config.model_path is None ==> config@.model_path is None,
        config@.whisper_threads == config.whisper_threads,
{
}

/// Every entry of a configuration is stored as it is.
pub proof fn every_entry_is_stored(config: AppConfig, stored: StoredConfig)
    requires
        stored_as(config@, stored),
    ensures
        stored.hotkey matches Some(hotkey) && hotkey@ == config.hotkey@,
        stored.audio_source is Some,
        config.audio_source matches Some(source) ==> (stored.audio_source matches Some(Some(kept))
            && kept@ == source@),
        config.audio_source is None ==> stored.audio_source == Some(None::<String>),
        stored.output_mode == Some(config.output_mode),
        stored.max_recording_secs == Some(config.max_recording_secs),
        config.model_path matches Some(path) ==> (stored.model_path matches Some(Some(kept))
            && kept@ == path@),
        config.model_path is None ==> stored.model_path == Some(None::<String>),
        stored.whisper_threads == Some(config.whisper_threads),
{
}

/// One slash stands between a directory and what lies in it, whether the directory
/// brings it or not. Without a directory the name stands alone.
pub proof fn one_slash_joins_paths(base: Seq<u8>, name: Seq<u8>)
    ensures
        joined_path(Seq::empty(), name) == name,
        joined_path(base.push(0x2f), name) == base + seq![0x2fu8] + name,
        base.len() > 0 && base[base.len() - 1] != 0x2f ==> joined_path(base, name) == base + seq![
            0x2fu8,
        ] + name,
{
    assert(joined_path(Seq::empty(), name) =~= name);
    assert(joined_path(base.push(0x2f), name) =~= base + seq![0x2fu8] + name);
    if base.len() > 0 && base[base.len() - 1] != 0x2f {
        assert(joined_path(base, name) =~= base + seq![0x2fu8] + name);
    }
}

/// The directory that is set for configurations counts before the home directory,
/// and that before the current one.
pub proof fn set_directory_comes_first(
    xdg_config_home: Seq<u8>,
    home: Option<Seq<u8>>,
    directory: Seq<u8>,
)
    ensures
        config_base(Some(xdg_config_home), home) == xdg_config_home,
        config_base(None, Some(directory)) == joined_path(directory, ".config".spec_bytes()),
        config_base(None, None) == ".".spec_bytes(),
{
}

/// The lines that separate are those on which there is nothing but whitespace.
pub proof fn blank_lines_separate(line: Seq<char>)
    ensures
        separates(line) <==> forall|i: int|
            0 <= i < line.len() ==> text::whitespace(#[trigger] line[i]),
{
    text::blank_text_trims_to_nothing(line);
}

} // verus!
