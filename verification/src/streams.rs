//! Which capture stream is ours: reading the listings of the sound server.
use crate::text;
use crate::text::{
    column, contains_lowered, digits_of, parse_u32, same, split_lines, strip_prefix, trim, trim_by,
    Cut,
};
use vstd::prelude::*;

verus! {

/// One block of the listing of source outputs, reduced to what identifies it.
#[derive(Debug)]
pub struct SourceOutput {
    pub id: u32,
    pub source: Option<u32>,
    pub pid: Option<String>,
    pub app: Option<String>,
}

/// What a block says, as mathematical values.
pub struct Block {
    pub id: u32,
    pub source: Option<u32>,
    pub pid: Option<Seq<char>>,
    pub app: Option<Seq<char>>,
}

/// The characters of an optional text.
pub open spec fn maybe_text(s: Option<String>) -> Option<Seq<char>> {
    match s {
        Some(t) => Some(t@),
        None => None,
    }
}

impl View for SourceOutput {
    type V = Block;

    open spec fn view(&self) -> Block {
        Block {
            id: self.id,
            source: self.source,
            pid: maybe_text(self.pid),
            app: maybe_text(self.app),
        }
    }
}

/// The blocks that a list of source outputs stands for.
pub open spec fn blocks_in(v: Seq<SourceOutput>) -> Seq<Block> {
    v.map_values(|o: SourceOutput| o@)
}

/// How far a listing has been read: the blocks so far, and whether the lines
/// that follow belong to the last of them.
pub struct Progress {
    pub blocks: Seq<Block>,
    pub open: bool,
}

/// A quoted value.
pub open spec fn bare(s: Seq<char>) -> Seq<char> {
    text::cut_ends(text::trimmed(s), Cut::Quote)
}

/// The block after one of its lines.
pub open spec fn noted(b: Block, line: Seq<char>) -> Block {
    if text::starts(line, "Source:"@) {
        Block { source: text::small_number(text::trimmed(line.skip("Source:"@.len() as int))), ..b }
    } else if text::starts(line, "application.process.id = "@) {
        Block { pid: Some(bare(line.skip("application.process.id = "@.len() as int))), ..b }
    } else if text::starts(line, "application.name = "@) {
        Block { app: Some(bare(line.skip("application.name = "@.len() as int))), ..b }
    } else {
        b
    }
}

/// Reading one more line. A header with a number opens a block; one without a
/// number opens a block that is dropped, and so are its lines.
pub open spec fn read_line(p: Progress, raw: Seq<char>) -> Progress {
    let line = text::trimmed(raw);
    if text::starts(line, "Source Output #"@) {
        match text::small_number(text::trimmed(line.skip("Source Output #"@.len() as int))) {
            Some(id) => Progress {
                blocks: p.blocks.push(Block { id, source: None, pid: None, app: None }),
                open: true,
            },
            None => Progress { blocks: p.blocks, open: false },
        }
    } else if p.open && p.blocks.len() > 0 {
        Progress {
            blocks: p.blocks.update(p.blocks.len() - 1, noted(p.blocks.last(), line)),
            open: true,
        }
    } else {
        p
    }
}

/// Reading lines from the top.
pub open spec fn read_lines(ls: Seq<Seq<char>>) -> Progress
    decreases ls.len(),
{
    if ls.len() == 0 {
        Progress { blocks: Seq::empty(), open: false }
    } else {
        read_line(read_lines(ls.drop_last()), ls.last())
    }
}

/// The blocks of a listing.
pub open spec fn listed(listing: Seq<char>) -> Seq<Block> {
    read_lines(text::lines(listing)).blocks
}

/// The stream's name holds ours, whatever wraps it.
pub open spec fn ours_by_name(app: Seq<char>) -> bool {
    text::occurs(text::lowered(app), "chromatui"@)
}

/// A block that is named after us and has no process id to go by.
pub open spec fn nameless_pid(b: Block) -> bool {
    b.pid is None && b.app is Some && ours_by_name(b.app->0)
}

/// The first block at or after `from` that records the process id, or the
/// number of blocks.
pub open spec fn place_of_pid(blocks: Seq<Block>, pid: Seq<char>, from: int) -> int
    decreases blocks.len() - from,
{
    if from >= blocks.len() {
        blocks.len() as int
    } else if blocks[from].pid == Some(pid) {
        from
    } else {
        place_of_pid(blocks, pid, from + 1)
    }
}

/// Our own block: the one with our process id, else the only one that is named
/// after us without a process id.
pub open spec fn our_block(blocks: Seq<Block>, pid: Seq<char>) -> Option<Block> {
    let i = place_of_pid(blocks, pid, 0);
    let named = blocks.filter(|b: Block| nameless_pid(b));
    if i < blocks.len() {
        Some(blocks[i])
    } else if named.len() == 1 {
        Some(named[0])
    } else {
        None
    }
}

/// The id of our stream and the source it is connected to.
pub open spec fn our_stream(blocks: Seq<Block>, pid: Seq<char>) -> Option<(u32, u32)> {
    match our_block(blocks, pid) {
        Some(b) => match b.source {
            Some(source) => Some((b.id, source)),
            None => None,
        },
        None => None,
    }
}

fn value_of(s: &str) -> (r: String)
    ensures
        r@ == bare(s@),
{
    trim_by(trim(s), Cut::Quote).to_string()
}

fn note(cur: SourceOutput, line: &str) -> (r: SourceOutput)
    ensures
        r@ == noted(cur@, line@),
{
    if let Some(rest) = strip_prefix(line, "Source:") {
        SourceOutput { source: parse_u32(trim(rest)), ..cur }
    } else if let Some(rest) = strip_prefix(line, "application.process.id = ") {
        SourceOutput { pid: Some(value_of(rest)), ..cur }
    } else if let Some(rest) = strip_prefix(line, "application.name = ") {
        SourceOutput { app: Some(value_of(rest)), ..cur }
    } else {
        cur
    }
}

/// Split the listing of source outputs into blocks. Properties that identify
/// nothing are ignored, and a block with an unreadable header is dropped.
pub fn parse_source_outputs(listing: &str) -> (outs: Vec<SourceOutput>)
    ensures
        blocks_in(outs@) == listed(listing@),
{
    let ls: Vec<&str> = split_lines(listing);
    let ghost all = text::lines(listing@);
    let mut outs: Vec<SourceOutput> = Vec::new();
    let mut open: bool = false;
    let mut i: usize = 0;
    assert(all.take(0).len() == 0);
    assert(blocks_in(outs@) =~= read_lines(all.take(0)).blocks);
    while i < ls.len()
        invariant
            i <= ls.len(),
            all == text::lines(listing@),
            ls.len() == all.len(),
            forall|j: int| 0 <= j < ls.len() ==> (#[trigger] ls[j])@ == all[j],
            blocks_in(outs@) == read_lines(all.take(i as int)).blocks,
            open == read_lines(all.take(i as int)).open,
        decreases ls.len() - i,
    {
        let ghost before = read_lines(all.take(i as int));
        proof {
            assert(all.take(i + 1).drop_last() == all.take(i as int));
            assert(all.take(i + 1).last() == all[i as int]);
            assert(blocks_in(outs@).len() == outs.len());
        }
        let ghost held = outs@;
        let line: &str = trim(ls[i]);
        if let Some(rest) = strip_prefix(line, "Source Output #") {
            match parse_u32(trim(rest)) {
                Some(id) => {
                    outs.push(SourceOutput { id, source: None, pid: None, app: None });
                    open = true;
                },
                None => {
                    open = false;
                },
            }
        } else if open {
            match outs.pop() {
                Some(cur) => {
                    outs.push(note(cur, line));
                },
                None => {},
            }
        }
        proof {
            assert(blocks_in(outs@) =~= read_line(before, all[i as int]).blocks) by {
                assert(blocks_in(held) == before.blocks);
            }
        }
        i = i + 1;
    }
    assert(all.take(i as int) == all);
    outs
}

/// The server labels our stream with our name inside other text.
pub fn is_us(app: &str) -> (r: bool)
    ensures
        r == ours_by_name(app@),
{
    contains_lowered(app, "chromatui")
}

fn has_pid(o: &SourceOutput, pid: &str) -> (r: bool)
    ensures
        r == (o@.pid == Some(pid@)),
{
    match &o.pid {
        Some(p) => same(p.as_str(), pid),
        None => false,
    }
}

fn has_our_name_alone(o: &SourceOutput) -> (r: bool)
    ensures
        r == nameless_pid(o@),
{
    if o.pid.is_some() {
        return false;
    }
    match &o.app {
        Some(a) => is_us(a.as_str()),
        None => false,
    }
}

/// Our own capture stream: its id and the index of the source it reads.
///
/// The process id is the reliable key where the server records one. Elsewhere
/// the block that is named after us stands for it, but only if there is
/// exactly one: guessing would move a stranger's stream.
pub fn parse_our_stream(listing: &str, pid: &str) -> (r: Option<(u32, u32)>)
    ensures
        r == our_stream(listed(listing@), pid@),
{
    let outs: Vec<SourceOutput> = parse_source_outputs(listing);
    let ghost blocks = listed(listing@);
    assert(blocks_in(outs@).len() == outs.len());
    assert(forall|j: int| 0 <= j < outs.len() ==> blocks[j] == (#[trigger] outs[j])@);
    let mut i: usize = 0;
    while i < outs.len() && !has_pid(&outs[i], pid)
        invariant
            i <= outs.len(),
            blocks.len() == outs.len(),
            forall|j: int| 0 <= j < outs.len() ==> blocks[j] == (#[trigger] outs[j])@,
            place_of_pid(blocks, pid@, 0) == place_of_pid(blocks, pid@, i as int),
        decreases outs.len() - i,
    {
        i = i + 1;
    }
    if i < outs.len() {
        return match outs[i].source {
            Some(source) => Some((outs[i].id, source)),
            None => None,
        };
    }
    let ghost pred = |b: Block| nameless_pid(b);
    let mut count: usize = 0;
    let mut at: usize = 0;
    let mut k: usize = 0;
    assert(blocks.take(0).filter(pred).len() == 0) by {
        reveal(Seq::filter);
    }
    while k < outs.len()
        invariant
            k <= outs.len(),
            count <= k,
            blocks.len() == outs.len(),
            forall|j: int| 0 <= j < outs.len() ==> blocks[j] == (#[trigger] outs[j])@,
            pred == (|b: Block| nameless_pid(b)),
            count == blocks.take(k as int).filter(pred).len(),
            count > 0 ==> at < outs.len() && blocks.take(k as int).filter(pred).last()
                == blocks[at as int],
        decreases outs.len() - k,
    {
        proof {
            reveal(Seq::filter);
            assert(blocks.take(k + 1).drop_last() == blocks.take(k as int));
            assert(blocks.take(k + 1).last() == outs[k as int]@);
        }
        if has_our_name_alone(&outs[k]) {
            count = count + 1;
            at = k;
        }
        k = k + 1;
    }
    assert(blocks.take(k as int) == blocks);
    if count == 1 {
        match outs[at].source {
            Some(source) => Some((outs[at].id, source)),
            None => None,
        }
    } else {
        None
    }
}

/// How a stream that is not ours appears in a report.
pub open spec fn seen_text(b: Block) -> Seq<char> {
    match (b.pid, b.app) {
        (Some(p), _) => "pid "@ + p,
        (None, Some(a)) => "\""@ + a + "\" (no pid)"@,
        (None, None) => "unnamed"@,
    }
}

/// Texts one after the other with a separator between them.
pub open spec fn joined(parts: Seq<Seq<char>>, sep: Seq<char>) -> Seq<char>
    decreases parts.len(),
{
    if parts.len() == 0 {
        Seq::empty()
    } else if parts.len() == 1 {
        parts[0]
    } else {
        joined(parts.drop_last(), sep) + sep + parts.last()
    }
}

/// The texts of strings.
pub open spec fn texts(v: Seq<String>) -> Seq<Seq<char>> {
    v.map_values(|t: String| t@)
}

/// Why our capture stream was not found.
#[derive(Debug)]
pub enum NotRegistered {
    /// Nothing is listed at all: the capture was opened outside the sound
    /// server, so that rerouting is impossible.
    NoStreams,
    /// Streams are listed, but none of them is ours.
    Unlisted { pid: String, seen: Vec<String> },
}

/// The report that our stream is not among `blocks`.
pub open spec fn unlisted(blocks: Seq<Block>, pid: Seq<char>) -> Seq<char> {
    if blocks.len() == 0 {
        "no capture streams listed by pactl — mic opened outside PipeWire/PulseAudio"@
    } else {
        "pid "@ + pid + " not among "@ + text::digits(blocks.len()) + " listed streams: "@ + joined(
            blocks.map_values(|b: Block| seen_text(b)),
            ", "@,
        )
    }
}

impl NotRegistered {
    /// The report for the user.
    pub open spec fn message(self) -> Seq<char> {
        match self {
            NotRegistered::NoStreams =>
                "no capture streams listed by pactl — mic opened outside PipeWire/PulseAudio"@,
            NotRegistered::Unlisted { pid, seen } => "pid "@ + pid@ + " not among "@ + text::digits(
                seen@.len(),
            ) + " listed streams: "@ + joined(texts(seen@), ", "@),
        }
    }

    /// The report for the user.
    pub fn to_string(&self) -> (r: String)
        ensures
            r@ == self.message(),
    {
        match self {
            NotRegistered::NoStreams =>
                "no capture streams listed by pactl — mic opened outside PipeWire/PulseAudio".to_string(),
            NotRegistered::Unlisted { pid, seen } => {
                let mut r: String = "pid ".to_string();
                r.append(pid.as_str());
                r.append(" not among ");
                let n: String = digits_of(seen.len() as u64);
                r.append(n.as_str());
                r.append(" listed streams: ");
                let list: String = join(seen, ", ");
                r.append(list.as_str());
                r
            },
        }
    }
}

/// Texts one after the other with a separator between them.
pub fn join(parts: &Vec<String>, sep: &str) -> (r: String)
    ensures
        r@ == joined(texts(parts@), sep@),
{
    let ghost all = texts(parts@);
    let mut r: String = String::new();
    let mut i: usize = 0;
    assert(all.take(0).len() == 0);
    while i < parts.len()
        invariant
            i <= parts.len(),
            all == texts(parts@),
            r@ == joined(all.take(i as int), sep@),
        decreases parts.len() - i,
    {
        proof {
            assert(all.take(i + 1).drop_last() == all.take(i as int));
            assert(all.take(i + 1).last() == parts[i as int]@);
        }
        if i > 0 {
            r.append(sep);
        }
        r.append(parts[i].as_str());
        assert(i == 0 ==> r@ =~= parts[0]@);
        i = i + 1;
    }
    assert(all.take(i as int) == all);
    r
}

fn seen(o: &SourceOutput) -> (r: String)
    ensures
        r@ == seen_text(o@),
{
    match (&o.pid, &o.app) {
        (Some(p), _) => {
            let mut r: String = "pid ".to_string();
            r.append(p.as_str());
            r
        },
        (None, Some(a)) => {
            let mut r: String = "\"".to_string();
            r.append(a.as_str());
            r.append("\" (no pid)");
            r
        },
        (None, None) => "unnamed".to_string(),
    }
}

/// The one failure that users meet, worded so that a screenshot tells the
/// causes apart: nothing listed at all, or listed but not ours.
pub fn not_registered(listing: &str, pid: &str) -> (r: NotRegistered)
    ensures
        listed(listing@).len() == 0 ==> r == NotRegistered::NoStreams,
        listed(listing@).len() > 0 ==> {
            &&& r is Unlisted
            &&& r->pid@ == pid@
            &&& texts(r->seen@) == listed(listing@).map_values(|b: Block| seen_text(b))
        },
        r.message() == unlisted(listed(listing@), pid@),
{
    let outs: Vec<SourceOutput> = parse_source_outputs(listing);
    let ghost blocks = listed(listing@);
    assert(blocks_in(outs@).len() == outs.len());
    if outs.len() == 0 {
        return NotRegistered::NoStreams;
    }
    let ghost want = blocks.map_values(|b: Block| seen_text(b));
    let mut names: Vec<String> = Vec::new();
    let mut i: usize = 0;
    while i < outs.len()
        invariant
            i <= outs.len(),
            blocks_in(outs@) == blocks,
            want == blocks.map_values(|b: Block| seen_text(b)),
            names.len() == i,
            forall|j: int| 0 <= j < i ==> (#[trigger] names[j])@ == want[j],
        decreases outs.len() - i,
    {
        assert(blocks[i as int] == outs[i as int]@);
        names.push(seen(&outs[i]));
        i = i + 1;
    }
    assert(texts(names@) =~= want);
    NotRegistered::Unlisted { pid: pid.to_string(), seen: names }
}

/// The id to move when rerouting, or why there is none.
pub fn our_source_output_id(listing: &str, pid: &str) -> (r: Result<u32, NotRegistered>)
    ensures
        match our_stream(listed(listing@), pid@) {
            Some((id, _)) => r == Ok::<u32, NotRegistered>(id),
            None => {
                &&& r is Err
                &&& r->Err_0.message() == unlisted(listed(listing@), pid@)
                &&& listed(listing@).len() == 0 ==> r->Err_0 is NoStreams
                &&& listed(listing@).len() > 0 ==> {
                    &&& r->Err_0 is Unlisted
                    &&& r->Err_0->pid@ == pid@
                    &&& texts(r->Err_0->seen@) == listed(listing@).map_values(
                        |b: Block| seen_text(b),
                    )
                }
            },
        },
{
    match parse_our_stream(listing, pid) {
        Some((id, _)) => Ok(id),
        None => Err(not_registered(listing, pid)),
    }
}

/// The name in a line of the short listing of sources, where the line is the
/// one of the source `idx`: the second of its columns.
pub open spec fn name_in_line(line: Seq<char>, idx: u32) -> Option<Seq<char>> {
    let tab = text::place_of(line, '\t', 0);
    if tab < line.len() && text::small_number(text::trimmed(line.subrange(0, tab))) == Some(idx) {
        Some(line.subrange(tab + 1, text::place_of(line, '\t', tab + 1)))
    } else {
        None
    }
}

/// The name of the source `idx` in the first line at or after `from` that
/// gives one.
pub open spec fn name_in_lines(ls: Seq<Seq<char>>, idx: u32, from: int) -> Option<Seq<char>>
    decreases ls.len() - from,
{
    if from >= ls.len() {
        None
    } else if name_in_line(ls[from], idx) is Some {
        name_in_line(ls[from], idx)
    } else {
        name_in_lines(ls, idx, from + 1)
    }
}

/// The name of the source `idx` in the short listing of sources, whose columns
/// tabs separate.
pub fn source_name_for_index<'a>(short_listing: &'a str, idx: u32) -> (r: Option<&'a str>)
    ensures
        match r {
            Some(name) => name_in_lines(text::lines(short_listing@), idx, 0) == Some(name@),
            None => name_in_lines(text::lines(short_listing@), idx, 0) is None,
        },
{
    let ls: Vec<&'a str> = split_lines(short_listing);
    let ghost all = text::lines(short_listing@);
    let mut i: usize = 0;
    while i < ls.len()
        invariant
            i <= ls.len(),
            all == text::lines(short_listing@),
            ls.len() == all.len(),
            forall|j: int| 0 <= j < ls.len() ==> (#[trigger] ls[j])@ == all[j],
            name_in_lines(all, idx, 0) == name_in_lines(all, idx, i as int),
        decreases ls.len() - i,
    {
        let line: &'a str = ls[i];
        let (first, next) = column(line, '\t', 0);
        if let Some(start) = next {
            if let Some(n) = parse_u32(trim(first)) {
                if n == idx {
                    let (name, _) = column(line, '\t', start);
                    return Some(name);
                }
            }
        }
        i = i + 1;
    }
    None
}

/// A block with our process id is preferred to any that merely bears our name.
pub proof fn law_pid_wins(blocks: Seq<Block>, pid: Seq<char>, i: int)
    requires
        0 <= i < blocks.len(),
        blocks[i].pid == Some(pid),
    ensures
        our_block(blocks, pid) is Some,
        our_block(blocks, pid)->0.pid == Some(pid),
{
    lemma_place_of_pid(blocks, pid, 0);
}

/// Whatever block is taken for ours is listed, and either records our process
/// id or is the only one of its name without a process id.
pub proof fn law_never_guesses(blocks: Seq<Block>, pid: Seq<char>)
    ensures
        our_block(blocks, pid) matches Some(b) ==> {
            &&& blocks.contains(b)
            &&& b.pid == Some(pid) || {
                &&& nameless_pid(b)
                &&& forall|i: int, j: int|
                    0 <= i < j < blocks.len() ==> !(nameless_pid(#[trigger] blocks[i])
                        && nameless_pid(#[trigger] blocks[j]))
            }
        },
{
    lemma_place_of_pid(blocks, pid, 0);
    let named = blocks.filter(|b: Block| nameless_pid(b));
    if named.len() == 1 {
        lemma_filtered(blocks, |b: Block| nameless_pid(b), 0);
        assert forall|i: int, j: int| 0 <= i < j < blocks.len() implies !(nameless_pid(
            #[trigger] blocks[i],
        ) && nameless_pid(#[trigger] blocks[j])) by {
            if nameless_pid(blocks[i]) && nameless_pid(blocks[j]) {
                lemma_two_in_filter(blocks, |b: Block| nameless_pid(b), i, j);
            }
        }
    }
}

/// Without our process id, two blocks that bear our name leave the question
/// open.
pub proof fn law_two_names_refused(blocks: Seq<Block>, pid: Seq<char>, i: int, j: int)
    requires
        0 <= i < j < blocks.len(),
        nameless_pid(blocks[i]),
        nameless_pid(blocks[j]),
        forall|k: int| 0 <= k < blocks.len() ==> (#[trigger] blocks[k]).pid != Some(pid),
    ensures
        our_block(blocks, pid) is None,
        our_stream(blocks, pid) is None,
{
    lemma_place_of_pid(blocks, pid, 0);
    lemma_two_in_filter(blocks, |b: Block| nameless_pid(b), i, j);
}

proof fn lemma_place_of_pid(blocks: Seq<Block>, pid: Seq<char>, from: int)
    requires
        0 <= from,
    ensures
        ({
            let p = place_of_pid(blocks, pid, from);
            &&& p <= blocks.len()
            &&& from <= blocks.len() ==> from <= p
            &&& p < blocks.len() ==> from <= p && blocks[p].pid == Some(pid)
            &&& forall|k: int| from <= k < p ==> (#[trigger] blocks[k]).pid != Some(pid)
        }),
    decreases blocks.len() - from,
{
    if from < blocks.len() && blocks[from].pid != Some(pid) {
        lemma_place_of_pid(blocks, pid, from + 1);
    }
}

proof fn lemma_filtered(s: Seq<Block>, pred: spec_fn(Block) -> bool, k: int)
    requires
        0 <= k < s.filter(pred).len(),
    ensures
        s.contains(s.filter(pred)[k]),
        pred(s.filter(pred)[k]),
    decreases s.len(),
{
    reveal(Seq::filter);
    let t = s.drop_last();
    if k < t.filter(pred).len() {
        lemma_filtered(t, pred, k);
        let m = choose|m: int| 0 <= m < t.len() && t[m] == t.filter(pred)[k];
        assert(s[m] == s.filter(pred)[k]);
    } else {
        assert(s[s.len() - 1] == s.filter(pred)[k]);
    }
}

proof fn lemma_one_in_filter(s: Seq<Block>, pred: spec_fn(Block) -> bool, i: int)
    requires
        0 <= i < s.len(),
        pred(s[i]),
    ensures
        s.filter(pred).len() >= 1,
    decreases s.len(),
{
    reveal(Seq::filter);
    if i < s.len() - 1 {
        lemma_one_in_filter(s.drop_last(), pred, i);
    }
}

proof fn lemma_two_in_filter(s: Seq<Block>, pred: spec_fn(Block) -> bool, i: int, j: int)
    requires
        0 <= i < j < s.len(),
        pred(s[i]),
        pred(s[j]),
    ensures
        s.filter(pred).len() >= 2,
    decreases s.len(),
{
    reveal(Seq::filter);
    if j < s.len() - 1 {
        lemma_two_in_filter(s.drop_last(), pred, i, j);
    } else {
        lemma_one_in_filter(s.drop_last(), pred, i);
    }
}

} // verus!
