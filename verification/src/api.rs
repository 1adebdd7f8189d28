//! Ticks, play modes, variable writes and the log of calls.

use crate::arrange::views;
use crate::exact::lemma_ratio_undone;
use crate::single::{magnitude_units, Single};
use crate::text::{
    chars_of, clone_texts, join, join_two, joined, lemma_pieces_len, lemma_pieces_of_joined, pieces,
    split, text_of, texts, trim, trimmed,
};
use vstd::arithmetic::power2::{lemma2_to64, lemma_pow2_adds, pow2};
use vstd::prelude::*;

verus! {

/// How many ticks a second has.
pub const EMOTE_TICKS_PER_SECOND: i64 = 60;

/// Sixty, the ticks of a second.
#[verifier::allow_in_spec]
pub fn ticks_per_second() -> (r: Single)
    returns
        (Single { bits: 0x4270_0000 }),
{
    Single { bits: 0x4270_0000 }
}

/// A thousand, the milliseconds of a second.
#[verifier::allow_in_spec]
pub fn milliseconds_per_second() -> (r: Single)
    returns
        (Single { bits: 0x447a_0000 }),
{
    Single { bits: 0x447a_0000 }
}

/// Milliseconds in ticks.
pub open spec fn in_ticks(ms: Single) -> Single {
    ms.times(ticks_per_second()).over(milliseconds_per_second())
}

/// Ticks in milliseconds.
pub open spec fn in_milliseconds(ticks: Single) -> Single {
    ticks.times(milliseconds_per_second()).over(ticks_per_second())
}

/// Milliseconds in ticks.
pub fn milliseconds_to_emote_ticks(ms: Single) -> (r: Single)
    ensures
        r == in_ticks(ms),
{
    ms.times(ticks_per_second()).over(milliseconds_per_second())
}

/// Ticks in milliseconds.
pub fn emote_ticks_to_milliseconds(ticks: Single) -> (r: Single)
    ensures
        r == in_milliseconds(ticks),
{
    ticks.times(milliseconds_per_second()).over(ticks_per_second())
}

/// Whether two finite numbers have one sign and differ by at most a millionth of the
/// second.
pub open spec fn nearly(a: Single, b: Single) -> bool {
    &&& a.is_finite()
    &&& b.is_finite()
    &&& a.is_negative() == b.is_negative()
    &&& (a.value() - b.value()) * 1_000_000 <= b.units()
    &&& (b.value() - a.value()) * 1_000_000 <= b.units()
}

/// Whether a time is zero, or lies far from both ends of the range: it is at least two
/// to the minus a hundred and twenty-first and at most two to the hundred and
/// seventeenth, counted in units of two to the minus a hundred and forty-ninth.
pub open spec fn is_middling(time: Single) -> bool {
    time.is_finite() && (time.units() == 0 || pow2(28) <= time.units() <= pow2(266))
}

proof fn lemma_rates()
    ensures
        ticks_per_second().units() == 60 * pow2(149),
        milliseconds_per_second().units() == 1000 * pow2(149),
{
    lemma2_to64();
    lemma_pow2_adds(18, 131);
    lemma_pow2_adds(14, 135);
    assert(0x4270_0000nat / 0x80_0000 == 132);
    assert(0x4270_0000nat % 0x80_0000 == 0x70_0000);
    assert(0x447a_0000nat / 0x80_0000 == 136);
    assert(0x447a_0000nat % 0x80_0000 == 0x7a_0000);
    assert(magnitude_units(0x4270_0000) == 0xf0_0000 * pow2(131));
    assert(magnitude_units(0x447a_0000) == 0xfa_0000 * pow2(135));
    assert(pow2(149) == 0x4_0000 * pow2(131));
    assert(pow2(149) == 0x4000 * pow2(135));
}

/// Milliseconds turned into ticks and back are the same milliseconds, up to a millionth.
pub proof fn lemma_milliseconds_round_trip(ms: Single)
    requires
        is_middling(ms),
    ensures
        nearly(in_milliseconds(in_ticks(ms)), ms),
{
    lemma_rates();
    lemma_ratio_undone(ms, ticks_per_second(), milliseconds_per_second(), 60, 1000);
}

/// Ticks turned into milliseconds and back are the same ticks, up to a millionth.
pub proof fn lemma_ticks_round_trip(ticks: Single)
    requires
        is_middling(ticks),
    ensures
        nearly(in_ticks(in_milliseconds(ticks)), ticks),
{
    lemma_rates();
    lemma_ratio_undone(ticks, milliseconds_per_second(), ticks_per_second(), 1000, 60);
}

/// How a timeline is played.
///
/// The lowest flag lets it run beside others, the next one adds its values as
/// differences.
#[derive(Clone, Copy, Debug, PartialEq, Eq, Structural, Hash)]
pub struct TimelinePlayMode {
    pub flags: u32,
    pub looping: bool,
}

impl TimelinePlayMode {
    /// Played once.
    #[verifier::allow_in_spec]
    pub fn once() -> (r: TimelinePlayMode)
        returns
            (TimelinePlayMode { flags: 0, looping: false }),
    {
        TimelinePlayMode { flags: 0, looping: false }
    }

    /// Played round and round.
    #[verifier::allow_in_spec]
    pub fn looped() -> (r: TimelinePlayMode)
        returns
            (TimelinePlayMode { flags: 1, looping: true }),
    {
        TimelinePlayMode { flags: 1, looping: true }
    }

    /// Played beside others.
    #[verifier::allow_in_spec]
    pub fn parallel() -> (r: TimelinePlayMode)
        returns
            (TimelinePlayMode { flags: 1, looping: false }),
    {
        TimelinePlayMode { flags: 1, looping: false }
    }

    /// Played beside others as differences.
    #[verifier::allow_in_spec]
    pub fn parallel_difference() -> (r: TimelinePlayMode)
        returns
            (TimelinePlayMode { flags: 3, looping: false }),
    {
        TimelinePlayMode { flags: 3, looping: false }
    }

    pub open spec fn spec_with_looping(self, looping: bool) -> TimelinePlayMode {
        TimelinePlayMode { looping, ..self }
    }

    /// The same mode, round and round or not.
    #[verifier::when_used_as_spec(spec_with_looping)]
    pub fn with_looping(self, looping: bool) -> (r: TimelinePlayMode)
        ensures
            r == self.spec_with_looping(looping),
    {
        TimelinePlayMode { flags: self.flags, looping }
    }

    pub open spec fn spec_is_looping(self) -> bool {
        self.looping
    }

    #[verifier::when_used_as_spec(spec_is_looping)]
    pub fn is_looping(self) -> (r: bool)
        ensures
            r == self.spec_is_looping(),
    {
        self.looping
    }

    pub open spec fn spec_is_difference(self) -> bool {
        (self.flags & 2) != 0
    }

    #[verifier::when_used_as_spec(spec_is_difference)]
    pub fn is_difference(self) -> (r: bool)
        ensures
            r == self.spec_is_difference(),
    {
        (self.flags & 2) != 0
    }
}

/// Only the mode that says so adds differences.
pub proof fn lemma_modes()
    ensures
        !TimelinePlayMode::once().is_difference(),
        !TimelinePlayMode::looped().is_difference(),
        !TimelinePlayMode::parallel().is_difference(),
        TimelinePlayMode::parallel_difference().is_difference(),
{
    assert(0u32 & 2 == 0 && 1u32 & 2 == 0 && 3u32 & 2 == 2) by (bit_vector);
}

/// A request to set a variable, within the given ticks.
#[derive(Clone, Debug)]
pub struct VariableWrite {
    pub name: String,
    pub value: Single,
    pub time_ticks: Single,
    pub easing: Single,
}

/// A `VariableWrite` by its characters.
#[verifier::ext_equal]
pub struct Write {
    pub name: Seq<char>,
    pub value: Single,
    pub time_ticks: Single,
    pub easing: Single,
}

impl View for VariableWrite {
    type V = Write;

    open spec fn view(&self) -> Write {
        Write {
            name: self.name@,
            value: self.value,
            time_ticks: self.time_ticks,
            easing: self.easing,
        }
    }
}

impl VariableWrite {
    /// A write that takes effect at once.
    pub fn immediate(name: &str, value: Single) -> (r: VariableWrite)
        ensures
            r@ == (Write {
                name: name@,
                value,
                time_ticks: Single::zero(),
                easing: Single::zero(),
            }),
    {
        VariableWrite {
            name: name.to_owned(),
            value,
            time_ticks: Single::zero(),
            easing: Single::zero(),
        }
    }

    /// A write that takes effect within a time.
    pub fn timed(name: &str, value: Single, time_ticks: Single, easing: Single) -> (r:
        VariableWrite)
        ensures
            r@ == (Write { name: name@, value, time_ticks, easing }),
    {
        VariableWrite { name: name.to_owned(), value, time_ticks, easing }
    }
}

/// A logged call.
#[derive(Clone, Debug, PartialEq, Eq)]
pub struct EmoteApiLogEntry {
    pub command: String,
    pub args: Vec<String>,
}

/// An `EmoteApiLogEntry` by its characters.
#[verifier::ext_equal]
pub struct LogEntry {
    pub command: Seq<char>,
    pub args: Seq<Seq<char>>,
}

impl View for EmoteApiLogEntry {
    type V = LogEntry;

    open spec fn view(&self) -> LogEntry {
        LogEntry { command: self.command@, args: texts(self.args@) }
    }
}

impl LogEntry {
    /// The entry as a line: the command and its arguments, apart by tabs.
    pub open spec fn line(self) -> Seq<char> {
        if self.args.len() == 0 {
            self.command
        } else {
            self.command + seq!['\t'] + joined(self.args, seq!['\t'])
        }
    }
}

impl EmoteApiLogEntry {
    pub fn duplicate(&self) -> (r: EmoteApiLogEntry)
        ensures
            r@ == self@,
    {
        EmoteApiLogEntry { command: self.command.clone(), args: clone_texts(&self.args) }
    }

    pub fn encode(&self) -> (r: String)
        ensures
            r@ == self@.line(),
    {
        assert(texts(self.args@).len() == self.args@.len());
        if self.args.len() == 0 {
            self.command.clone()
        } else {
            proof {
                reveal_strlit("\t");
                assert("\t"@ =~= seq!['\t']);
            }
            let rest = join(&self.args, "\t");
            join_two(self.command.as_str(), "\t", rest.as_str())
        }
    }
}

/// The entry that a line holds, where it starts with a command.
pub open spec fn entry_of(line: Seq<char>) -> Option<LogEntry> {
    let parts = pieces(line, '\t');
    let command = trimmed(parts[0]);
    if command.len() == 0 {
        None
    } else {
        Some(LogEntry { command, args: parts.drop_first() })
    }
}

pub open spec fn opt_entry(e: Option<EmoteApiLogEntry>) -> Option<LogEntry> {
    match e {
        Some(v) => Some(v@),
        None => None,
    }
}

pub fn parse_api_log_entry(line: &str) -> (r: Option<EmoteApiLogEntry>)
    ensures
        opt_entry(r) == entry_of(line@),
{
    let parts = split(line, '\t');
    proof {
        lemma_pieces_len(line@, '\t');
        assert(texts(parts@).len() == parts@.len());
        assert(texts(parts@)[0] == parts@[0]@);
    }
    let command = trim(parts[0].as_str());
    if command.as_str().is_empty() {
        return None;
    }
    let mut args: Vec<String> = Vec::new();
    let mut i: usize = 1;
    let ghost all = texts(parts@);
    assert(texts(args@) =~= all.subrange(1, 1));
    while i < parts.len()
        invariant
            1 <= i <= parts@.len(),
            all == texts(parts@),
            args@.len() == i - 1,
            texts(args@) == all.subrange(1, i as int),
        decreases parts@.len() - i,
    {
        args.push(parts[i].clone());
        assert(texts(args@) =~= all.subrange(1, i + 1));
        i = i + 1;
    }
    assert(all.subrange(1, i as int) =~= all.drop_first());
    Some(EmoteApiLogEntry { command, args })
}

/// A line without the carriage return at its end.
pub open spec fn without_return(line: Seq<char>) -> Seq<char> {
    if line.len() > 0 && line.last() == '\r' {
        line.drop_last()
    } else {
        line
    }
}

/// The lines of a text. A line ends at a line feed, with a carriage return before
/// it or not; the last line feed may be missing.
pub open spec fn lines(s: Seq<char>) -> Seq<Seq<char>> {
    let parts = pieces(s, '\n');
    let ended = parts.drop_last().map_values(|p: Seq<char>| without_return(p));
    if parts.last().len() == 0 {
        ended
    } else {
        ended.push(parts.last())
    }
}

fn drop_return(line: &String) -> (r: String)
    ensures
        r@ == without_return(line@),
{
    let chars = chars_of(line.as_str());
    let n: usize = chars.len();
    if n > 0 && chars[n - 1] == '\r' {
        let r = text_of(&chars, 0, n - 1);
        assert(r@ =~= line@.drop_last());
        r
    } else {
        line.clone()
    }
}

pub fn split_lines(s: &str) -> (r: Vec<String>)
    ensures
        texts(r@) == lines(s@),
{
    let parts = split(s, '\n');
    proof {
        lemma_pieces_len(s@, '\n');
    }
    let ghost all = texts(parts@);
    assert(all.len() == parts@.len());
    let n: usize = parts.len();
    let mut r: Vec<String> = Vec::new();
    let mut i: usize = 0;
    let ghost ended = all.drop_last().map_values(|p: Seq<char>| without_return(p));
    while i < n - 1
        invariant
            n == parts@.len(),
            n > 0,
            i <= n - 1,
            all == texts(parts@),
            ended == all.drop_last().map_values(|p: Seq<char>| without_return(p)),
            r@.len() == i,
            texts(r@) == ended.take(i as int),
        decreases n - i,
    {
        r.push(drop_return(&parts[i]));
        assert(r@[i as int]@ == ended[i as int]);
        assert(texts(r@) =~= ended.take(i + 1));
        i = i + 1;
    }
    assert(ended.take(i as int) =~= ended);
    assert(all.last() == parts@[n - 1]@);
    if !parts[n - 1].as_str().is_empty() {
        r.push(parts[n - 1].clone());
        assert(texts(r@) =~= ended.push(all.last()));
    }
    r
}

/// The entries that lines hold; a line without one is passed over.
pub open spec fn entries_of_lines(row: Seq<Seq<char>>) -> Seq<LogEntry>
    decreases row.len(),
{
    if row.len() == 0 {
        Seq::empty()
    } else {
        let rest = entries_of_lines(row.drop_last());
        match entry_of(row.last()) {
            Some(entry) => rest.push(entry),
            None => rest,
        }
    }
}

/// Reads a log.
pub fn read_log(log: &str) -> (r: Vec<EmoteApiLogEntry>)
    ensures
        views(r@) == entries_of_lines(lines(log@)),
{
    let row = split_lines(log);
    let mut r: Vec<EmoteApiLogEntry> = Vec::new();
    let mut i: usize = 0;
    let ghost all = texts(row@);
    assert(views(r@) =~= entries_of_lines(all.take(0)));
    while i < row.len()
        invariant
            i <= row@.len(),
            all == texts(row@),
            views(r@) == entries_of_lines(all.take(i as int)),
        decreases row@.len() - i,
    {
        assert(all.take(i + 1).drop_last() =~= all.take(i as int));
        assert(all.take(i + 1).last() == row@[i as int]@);
        let ghost was = views(r@);
        if let Some(entry) = parse_api_log_entry(row[i].as_str()) {
            r.push(entry);
            assert(views(r@) =~= was.push(entry@));
        }
        i = i + 1;
    }
    assert(all.take(i as int) =~= all);
    r
}

/// The lines of a row of entries.
pub open spec fn entry_lines(entries: Seq<LogEntry>) -> Seq<Seq<char>> {
    entries.map_values(|e: LogEntry| e.line())
}

/// Writes a log: one line for each entry.
pub fn write_log(entries: &Vec<EmoteApiLogEntry>) -> (r: String)
    ensures
        r@ == joined(entry_lines(views(entries@)), seq!['\n']),
{
    let mut row: Vec<String> = Vec::new();
    let mut i: usize = 0;
    let ghost want = entry_lines(views(entries@));
    while i < entries.len()
        invariant
            i <= entries@.len(),
            row@.len() == i,
            want == entry_lines(views(entries@)),
            texts(row@) == want.take(i as int),
        decreases entries@.len() - i,
    {
        row.push(entries[i].encode());
        assert(row@[i as int]@ == want[i as int]);
        assert(texts(row@) =~= want.take(i + 1));
        i = i + 1;
    }
    assert(want.take(i as int) =~= want);
    proof {
        reveal_strlit("\n");
        assert("\n"@ =~= seq!['\n']);
    }
    join(&row, "\n")
}

impl LogEntry {
    /// Whether the entry has a command and no tab within its parts.
    pub open spec fn parted(self) -> bool {
        &&& self.command.len() > 0
        &&& trimmed(self.command) == self.command
        &&& !self.command.contains('\t')
        &&& forall|i: int| 0 <= i < self.args.len() ==> !(#[trigger] self.args[i]).contains('\t')
    }

    /// Whether the entry keeps its parts apart and stays within one line of a log.
    pub open spec fn plain(self) -> bool {
        &&& self.parted()
        &&& !self.line().contains('\n')
        &&& self.line().last() != '\r'
    }
}

/// An entry without a tab in its parts reads back from its own line, whatever other
/// characters it holds.
pub proof fn lemma_entry_round_trip(e: LogEntry)
    requires
        e.parted(),
    ensures
        entry_of(e.line()) == Some(e),
{
    let parts = seq![e.command] + e.args;
    assert forall|i: int| 0 <= i < parts.len() implies !(#[trigger] parts[i]).contains('\t') by {
        if i > 0 {
            assert(parts[i] == e.args[i - 1]);
        }
    }
    lemma_joined_front(e.command, e.args, seq!['\t']);
    assert(joined(parts, seq!['\t']) =~= e.line());
    lemma_pieces_of_joined(parts, '\t');
    assert(parts.drop_first() =~= e.args);
}

/// Joining with one more part in front.
proof fn lemma_joined_front(first: Seq<char>, rest: Seq<Seq<char>>, sep: Seq<char>)
    ensures
        rest.len() > 0 ==> joined(seq![first] + rest, sep) == first + sep + joined(rest, sep),
        rest.len() == 0 ==> joined(seq![first] + rest, sep) == first,
    decreases rest.len(),
{
    let all = seq![first] + rest;
    if rest.len() == 0 {
        assert(all =~= seq![first]);
    } else {
        assert(all.drop_last() =~= seq![first] + rest.drop_last());
        assert(all.last() == rest.last());
        lemma_joined_front(first, rest.drop_last(), sep);
        if rest.len() == 1 {
            assert(rest.drop_last().len() == 0);
            assert(joined(all, sep) =~= first + sep + joined(rest, sep));
        } else {
            assert(joined(all, sep) =~= first + sep + joined(rest, sep));
        }
    }
}

/// A log of plain entries reads back as it was written.
pub proof fn lemma_log_round_trip(entries: Seq<LogEntry>)
    requires
        forall|i: int| 0 <= i < entries.len() ==> (#[trigger] entries[i]).plain(),
    ensures
        entries_of_lines(lines(joined(entry_lines(entries), seq!['\n']))) == entries,
{
    let row = entry_lines(entries);
    let log = joined(row, seq!['\n']);
    if entries.len() == 0 {
        assert(log =~= Seq::<char>::empty());
        assert(pieces(log, '\n') =~= seq![Seq::<char>::empty()]);
        assert(lines(log) =~= Seq::<Seq<char>>::empty());
        assert(entries =~= Seq::<LogEntry>::empty());
    } else {
        assert forall|i: int| 0 <= i < row.len() implies !(#[trigger] row[i]).contains('\n') by {
            assert(entries[i].plain());
        }
        lemma_pieces_of_joined(row, '\n');
        assert forall|i: int| 0 <= i < row.len() implies without_return(#[trigger] row[i])
            == row[i] by {
            assert(entries[i].plain());
        }
        assert(row.last() == entries.last().line());
        assert(entries[entries.len() - 1].plain());
        assert(row.last().len() > 0);
        assert(lines(log) =~= row);
        lemma_entries_of_lines(entries);
    }
}

proof fn lemma_entries_of_lines(entries: Seq<LogEntry>)
    requires
        forall|i: int| 0 <= i < entries.len() ==> (#[trigger] entries[i]).plain(),
    ensures
        entries_of_lines(entry_lines(entries)) == entries,
    decreases entries.len(),
{
    if entries.len() > 0 {
        let front = entries.drop_last();
        assert forall|i: int| 0 <= i < front.len() implies (#[trigger] front[i]).plain() by {
            assert(entries[i].plain());
        }
        lemma_entries_of_lines(front);
        assert(entry_lines(entries).drop_last() =~= entry_lines(front));
        assert(entries[entries.len() - 1].plain());
        lemma_entry_round_trip(entries.last());
        assert(entries =~= front.push(entries.last()));
    } else {
        assert(entries =~= Seq::<LogEntry>::empty());
    }
}

} // verus!
