//! Listings of the sound server as they are written: what a line says is read back.
use crate::audio;
use crate::audio::InputSource;
use crate::numerals;
use crate::single::Single;
use crate::streams;
use crate::streams::{Block, Progress};
use crate::text;
use crate::text::Cut;
use vstd::prelude::*;

verus! {

/// White space and nothing else.
pub open spec fn blank(s: Seq<char>) -> bool {
    forall|i: int| 0 <= i < s.len() ==> text::white(#[trigger] s[i])
}

/// A text that nothing would be cut from.
pub open spec fn firm(s: Seq<char>, cut: Cut) -> bool {
    s.len() > 0 && !text::falls_to(s.first(), cut) && !text::falls_to(s.last(), cut)
}

proof fn lemma_front(pre: Seq<char>, s: Seq<char>, cut: Cut)
    requires
        forall|i: int| 0 <= i < pre.len() ==> text::falls_to(#[trigger] pre[i], cut),
        s.len() > 0,
        !text::falls_to(s.first(), cut),
    ensures
        text::cut_front(pre + s, cut) == s,
    decreases pre.len(),
{
    let t = pre + s;
    if pre.len() == 0 {
        assert(t =~= s);
    } else {
        assert(t.first() == pre[0]);
        assert(t.drop_first() =~= pre.drop_first() + s);
        assert forall|i: int| 0 <= i < pre.drop_first().len() implies text::falls_to(
            #[trigger] pre.drop_first()[i],
            cut,
        ) by {
            assert(pre.drop_first()[i] == pre[i + 1]);
        }
        lemma_front(pre.drop_first(), s, cut);
    }
}

proof fn lemma_back(s: Seq<char>, post: Seq<char>, cut: Cut)
    requires
        forall|i: int| 0 <= i < post.len() ==> text::falls_to(#[trigger] post[i], cut),
        s.len() > 0,
        !text::falls_to(s.last(), cut),
    ensures
        text::cut_back(s + post, cut) == s,
    decreases post.len(),
{
    let t = s + post;
    if post.len() == 0 {
        assert(t =~= s);
    } else {
        assert(t.last() == post.last());
        assert(t.drop_last() =~= s + post.drop_last());
        lemma_back(s, post.drop_last(), cut);
    }
}

/// Cutting takes what stands around a text and leaves the text.
pub proof fn law_cutting_leaves_text(pre: Seq<char>, s: Seq<char>, post: Seq<char>, cut: Cut)
    requires
        forall|i: int| 0 <= i < pre.len() ==> text::falls_to(#[trigger] pre[i], cut),
        forall|i: int| 0 <= i < post.len() ==> text::falls_to(#[trigger] post[i], cut),
        firm(s, cut),
    ensures
        text::cut_ends(pre + s + post, cut) == s,
{
    let u = s + post;
    assert(pre + s + post =~= pre + u);
    assert(u.first() == s.first());
    lemma_front(pre, u, cut);
    lemma_back(s, post, cut);
}

proof fn lemma_trimmed(pre: Seq<char>, s: Seq<char>)
    requires
        blank(pre),
        firm(s, Cut::Space),
    ensures
        text::trimmed(pre + s) == s,
{
    let none = Seq::<char>::empty();
    assert(pre + s + none =~= pre + s);
    law_cutting_leaves_text(pre, s, none, Cut::Space);
}

/// A number of 32 bits is read back from its digits.
pub proof fn law_number_is_read_back(n: u32)
    ensures
        text::small_number(text::digits(n as nat)) == Some(n),
        firm(text::digits(n as nat), Cut::Space),
{
    let s = text::digits(n as nat);
    numerals::law_digits_write_number(n as nat);
    assert(text::digit(s[0]) && text::digit(s[s.len() - 1]));
}

/// A header line opens a block with its number, however far it is indented.
pub proof fn law_header_is_read_back(p: Progress, indent: Seq<char>, id: u32)
    requires
        blank(indent),
    ensures
        streams::read_line(p, indent + ("Source Output #"@ + text::digits(id as nat)))
            == (Progress {
            blocks: p.blocks.push(Block { id, source: None, pid: None, app: None }),
            open: true,
        }),
{
    reveal_strlit("Source Output #");
    let (head, d) = ("Source Output #"@, text::digits(id as nat));
    let line = head + d;
    law_number_is_read_back(id);
    assert(line.first() == 'S');
    assert(line.last() == d.last());
    lemma_trimmed(indent, line);
    assert(line.take(head.len() as int) =~= head);
    assert(line.skip(head.len() as int) =~= d);
    let none = Seq::<char>::empty();
    assert(none + d =~= d);
    lemma_trimmed(none, d);
}

/// A line that names the source gives its number to the block that is open, and changes
/// nothing else.
pub proof fn law_source_is_read_back(p: Progress, indent: Seq<char>, n: u32)
    requires
        blank(indent),
        p.open,
        p.blocks.len() > 0,
    ensures
        streams::read_line(p, indent + ("Source: "@ + text::digits(n as nat))) == (Progress {
            blocks: p.blocks.update(
                p.blocks.len() - 1,
                Block { source: Some(n), ..p.blocks.last() },
            ),
            open: true,
        }),
{
    reveal_strlit("Source Output #");
    reveal_strlit("Source:");
    reveal_strlit("Source: ");
    let (head, d) = ("Source: "@, text::digits(n as nat));
    let line = head + d;
    law_number_is_read_back(n);
    assert(line.first() == 'S' && line[6] == ':');
    assert(line.last() == d.last());
    lemma_trimmed(indent, line);
    assert(line.take("Source:"@.len() as int) =~= "Source:"@);
    if text::starts(line, "Source Output #"@) {
        assert(line.take("Source Output #"@.len() as int)[6] == "Source Output #"@[6]);
    }
    let gap = seq![' '];
    assert(line.skip("Source:"@.len() as int) =~= gap + d);
    lemma_trimmed(gap, d);
}

/// A line with the process id gives it to the block that is open, without its quotes, and
/// changes nothing else.
pub proof fn law_pid_is_read_back(p: Progress, indent: Seq<char>, pid: Seq<char>)
    requires
        blank(indent),
        p.open,
        p.blocks.len() > 0,
        firm(pid, Cut::Quote),
    ensures
        streams::read_line(p, indent + ("application.process.id = "@ + quoted(pid))) == (Progress {
            blocks: p.blocks.update(
                p.blocks.len() - 1,
                Block { pid: Some(pid), ..p.blocks.last() },
            ),
            open: true,
        }),
{
    reveal_strlit("Source Output #");
    reveal_strlit("Source:");
    reveal_strlit("application.process.id = ");
    let head = "application.process.id = "@;
    let line = head + quoted(pid);
    assert(line.first() == 'a');
    assert(line.last() == '"');
    lemma_trimmed(indent, line);
    assert(line.take(head.len() as int) =~= head);
    lemma_other_start(line, "Source Output #"@);
    lemma_other_start(line, "Source:"@);
    assert(line.skip(head.len() as int) =~= quoted(pid));
    lemma_unquoted(pid);
}

/// A line with the name of the program gives it to the block that is open likewise.
pub proof fn law_name_is_read_back(p: Progress, indent: Seq<char>, name: Seq<char>)
    requires
        blank(indent),
        p.open,
        p.blocks.len() > 0,
        firm(name, Cut::Quote),
    ensures
        streams::read_line(p, indent + ("application.name = "@ + quoted(name))) == (Progress {
            blocks: p.blocks.update(
                p.blocks.len() - 1,
                Block { app: Some(name), ..p.blocks.last() },
            ),
            open: true,
        }),
{
    reveal_strlit("Source Output #");
    reveal_strlit("Source:");
    reveal_strlit("application.process.id = ");
    reveal_strlit("application.name = ");
    let head = "application.name = "@;
    let line = head + quoted(name);
    assert(line.first() == 'a');
    assert(line.last() == '"');
    lemma_trimmed(indent, line);
    assert(line.take(head.len() as int) =~= head);
    lemma_other_start(line, "Source Output #"@);
    lemma_other_start(line, "Source:"@);
    let other = "application.process.id = "@;
    if text::starts(line, other) {
        assert(line.take(other.len() as int)[12] == other[12]);
        assert(line[12] == head[12]);
    }
    assert(line.skip(head.len() as int) =~= quoted(name));
    lemma_unquoted(name);
}

proof fn lemma_other_start(line: Seq<char>, p: Seq<char>)
    requires
        line.len() > 0,
        p.len() > 0,
        line[0] != p[0],
    ensures
        !text::starts(line, p),
{
    if text::starts(line, p) {
        assert(line.take(p.len() as int)[0] == p[0]);
    }
}

/// A text between quotes.
pub open spec fn quoted(s: Seq<char>) -> Seq<char> {
    seq!['"'] + s + seq!['"']
}

proof fn lemma_unquoted(s: Seq<char>)
    requires
        firm(s, Cut::Quote),
    ensures
        streams::bare(quoted(s)) == s,
{
    let none = Seq::<char>::empty();
    let q = quoted(s);
    assert(q.first() == '"' && q.last() == '"');
    assert(none + q =~= q);
    lemma_trimmed(none, q);
    law_cutting_leaves_text(seq!['"'], s, seq!['"'], Cut::Quote);
}

/// The place of a character that does not occur before it.
proof fn lemma_place(s: Seq<char>, c: char, from: int, at: int)
    requires
        0 <= from <= at <= s.len(),
        forall|i: int| from <= i < at ==> #[trigger] s[i] != c,
        at < s.len() ==> s[at] == c,
    ensures
        text::place_of(s, c, from) == at,
    decreases at - from,
{
    if from < at {
        lemma_place(s, c, from + 1, at);
    }
}

/// A line of the short listing gives the name in its second column for the number in its
/// first, whatever follows behind a further tab.
pub proof fn law_source_name_is_read_back(idx: u32, name: Seq<char>, rest: Seq<char>, other: u32)
    requires
        forall|i: int| 0 <= i < name.len() ==> #[trigger] name[i] != '\t',
    ensures
        ({
            let line = text::digits(idx as nat) + seq!['\t'] + name + seq!['\t'] + rest;
            &&& streams::name_in_line(line, idx) == Some(name)
            &&& other != idx ==> streams::name_in_line(line, other) is None
        }),
{
    let d = text::digits(idx as nat);
    let line = d + seq!['\t'] + name + seq!['\t'] + rest;
    let (n, m) = (d.len() as int, name.len() as int);
    numerals::law_digits_write_number(idx as nat);
    law_number_is_read_back(idx);
    assert forall|i: int| 0 <= i < n implies #[trigger] line[i] != '\t' by {
        assert(line[i] == d[i]);
        assert(text::digit(d[i]));
    }
    assert(line[n] == '\t');
    lemma_place(line, '\t', 0, n);
    assert(line.subrange(0, n) =~= d);
    let none = Seq::<char>::empty();
    assert(none + d =~= d);
    lemma_trimmed(none, d);
    assert forall|i: int| n + 1 <= i < n + 1 + m implies #[trigger] line[i] != '\t' by {
        assert(line[i] == name[i - n - 1]);
    }
    assert(line[n + 1 + m] == '\t');
    lemma_place(line, '\t', n + 1, n + 1 + m);
    assert(line.subrange(n + 1, n + 1 + m) =~= name);
}

/// The route to a source is recognised as what it leads to: the monitor of a sink as internal
/// audio, and a source that is no monitor as a microphone.
pub proof fn law_route_is_recognised(reply: Seq<char>)
    ensures
        audio::kind_of(audio::route(InputSource::Internal, reply)) == InputSource::Internal,
        !text::ends(reply, ".monitor"@) ==> audio::kind_of(audio::route(InputSource::Mic, reply))
            == InputSource::Mic,
{
    let r = reply + ".monitor"@;
    assert(r.skip(r.len() - ".monitor"@.len()) =~= ".monitor"@);
}

/// What is read from the ring ends with the latest sample, goes back in order, and is silent
/// before the first.
pub proof fn law_latest_samples_at_the_end(s: Seq<Single>, n: nat, back: int)
    requires
        0 <= back < n,
    ensures
        audio::padded(s, n).len() == n,
        back < s.len() ==> audio::padded(s, n)[n - 1 - back] == s[s.len() - 1 - back],
        back >= s.len() ==> audio::padded(s, n)[n - 1 - back].zero(),
{
}

} // verus!
