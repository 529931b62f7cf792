//! Listings one after the other: each block of source outputs is read by itself.
use crate::streams;
use crate::streams::{Block, Progress};
use crate::text;
use crate::text::Cut;
use vstd::prelude::*;

verus! {

/// Reading on from some progress.
spec fn read_more(p: Progress, ls: Seq<Seq<char>>) -> Progress
    decreases ls.len(),
{
    if ls.len() == 0 {
        p
    } else {
        streams::read_line(read_more(p, ls.drop_last()), ls.last())
    }
}

/// Nothing has been read.
spec fn start() -> Progress {
    Progress { blocks: Seq::empty(), open: false }
}

proof fn lemma_from_start(ls: Seq<Seq<char>>)
    ensures
        read_more(start(), ls) == streams::read_lines(ls),
    decreases ls.len(),
{
    if ls.len() > 0 {
        lemma_from_start(ls.drop_last());
    }
}

proof fn lemma_split(p: Progress, x: Seq<Seq<char>>, y: Seq<Seq<char>>)
    ensures
        read_more(p, x + y) == read_more(read_more(p, x), y),
    decreases y.len(),
{
    if y.len() == 0 {
        assert(x + y =~= x);
    } else {
        assert((x + y).drop_last() =~= x + y.drop_last());
        assert((x + y).last() == y.last());
        lemma_split(p, x, y.drop_last());
    }
}

/// A carriage return behind a text falls with the white space there.
proof fn lemma_return_is_white(s: Seq<char>)
    ensures
        text::trimmed(s.push('\r')) == text::trimmed(s),
{
    lemma_front(s);
    if text::cut_front(s, Cut::Space).len() == 0 {
    } else {
        let u = text::cut_front(s, Cut::Space);
        assert(u.push('\r').drop_last() =~= u);
    }
}

proof fn lemma_front(s: Seq<char>)
    ensures
        text::cut_front(s.push('\r'), Cut::Space) == if text::cut_front(s, Cut::Space).len() == 0 {
            Seq::<char>::empty()
        } else {
            text::cut_front(s, Cut::Space).push('\r')
        },
    decreases s.len(),
{
    let t = s.push('\r');
    if s.len() == 0 {
        reveal_with_fuel(text::cut_front, 2);
        assert(t.first() == '\r');
        assert(t.drop_first() =~= Seq::<char>::empty());
        assert(text::cut_front(s, Cut::Space) =~= Seq::<char>::empty());
    } else {
        assert(t.first() == s.first());
        assert(t.drop_first() =~= s.drop_first().push('\r'));
        lemma_front(s.drop_first());
    }
}

proof fn lemma_without_return(s: Seq<char>)
    ensures
        text::trimmed(text::without_return(s)) == text::trimmed(s),
{
    if s.len() > 0 && s.last() == '\r' {
        assert(s =~= s.drop_last().push('\r'));
        lemma_return_is_white(s.drop_last());
    }
}

/// An empty line says nothing.
proof fn lemma_empty_line(p: Progress)
    ensures
        streams::read_line(p, Seq::<char>::empty()) == p,
{
    let none = Seq::<char>::empty();
    reveal_strlit("Source Output #");
    reveal_strlit("Source:");
    reveal_strlit("application.process.id = ");
    reveal_strlit("application.name = ");
    assert(text::trimmed(none) == none);
    if p.open && p.blocks.len() > 0 {
        assert(p.blocks.update(p.blocks.len() - 1, p.blocks.last()) =~= p.blocks);
    }
}

/// A listing with another one behind it, from the next line on.
pub open spec fn joined(a: Seq<char>, b: Seq<char>) -> Seq<char> {
    a.push('\n') + b
}

/// The place of a line feed does not depend on what follows.
proof fn lemma_place(a: Seq<char>, b: Seq<char>, from: int)
    requires
        0 <= from <= a.len(),
    ensures
        text::place_of(joined(a, b), '\n', from) == text::place_of(a, '\n', from),
        from <= text::place_of(a, '\n', from) <= a.len(),
    decreases a.len() - from,
{
    let c = joined(a, b);
    if from == a.len() {
        assert(c[from] == '\n');
    } else {
        assert(c[from] == a[from]);
        lemma_place(a, b, from + 1);
    }
}

/// The lines of the second listing are its own.
proof fn lemma_second(a: Seq<char>, b: Seq<char>, from: int)
    requires
        0 <= from <= b.len(),
    ensures
        text::lines_from(joined(a, b), a.len() + 1 + from) == text::lines_from(b, from),
    decreases b.len() - from,
{
    let c = joined(a, b);
    let at = a.len() + 1 + from;
    if from < b.len() {
        lemma_second_place(a, b, from);
        let i = text::place_of(b, '\n', from);
        let j = text::place_of(c, '\n', at);
        if i < b.len() {
            assert(c.subrange(at, j) =~= b.subrange(from, i));
            lemma_second(a, b, i + 1);
        } else {
            assert(c.skip(at) =~= b.skip(from));
        }
    }
}

proof fn lemma_second_place(a: Seq<char>, b: Seq<char>, from: int)
    requires
        0 <= from <= b.len(),
    ensures
        text::place_of(joined(a, b), '\n', a.len() + 1 + from) == a.len() + 1 + text::place_of(
            b,
            '\n',
            from,
        ),
        from <= text::place_of(b, '\n', from) <= b.len(),
    decreases b.len() - from,
{
    if from < b.len() {
        assert(joined(a, b)[a.len() + 1 + from] == b[from]);
        lemma_second_place(a, b, from + 1);
    }
}

/// Reading two listings is reading on with the second.
proof fn lemma_read_joined(p: Progress, a: Seq<char>, b: Seq<char>, from: int)
    requires
        0 <= from <= a.len(),
    ensures
        read_more(p, text::lines_from(joined(a, b), from)) == read_more(
            read_more(p, text::lines_from(a, from)),
            text::lines(b),
        ),
    decreases a.len() - from,
{
    let c = joined(a, b);
    let i = text::place_of(a, '\n', from);
    let rest = text::lines(b);
    lemma_place(a, b, from);
    if i < a.len() {
        let line = text::without_return(a.subrange(from, i));
        assert(c.subrange(from, i) =~= a.subrange(from, i));
        let q = streams::read_line(p, line);
        lemma_one(p, line);
        lemma_split(p, seq![line], text::lines_from(c, i + 1));
        lemma_split(p, seq![line], text::lines_from(a, i + 1));
        lemma_read_joined(q, a, b, i + 1);
    } else {
        let last = a.skip(from);
        let line = text::without_return(last);
        assert(c.subrange(from, i) =~= last);
        lemma_second(a, b, 0);
        lemma_split(p, seq![line], rest);
        lemma_one(p, line);
        lemma_one(p, last);
        lemma_without_return(last);
        if from == a.len() {
            assert(line =~= Seq::<char>::empty());
            lemma_empty_line(p);
        }
    }
}

proof fn lemma_one(p: Progress, line: Seq<char>)
    ensures
        read_more(p, seq![line]) == streams::read_line(p, line),
{
    reveal_with_fuel(read_more, 2);
    assert(seq![line].drop_last() =~= Seq::<Seq<char>>::empty());
}

/// The number of a header line that can be read.
pub open spec fn header(raw: Seq<char>) -> Option<u32> {
    let line = text::trimmed(raw);
    if text::starts(line, "Source Output #"@) {
        text::small_number(text::trimmed(line.skip("Source Output #"@.len() as int)))
    } else {
        None
    }
}

/// Lines that begin with a header are read by themselves, whatever came before.
proof fn lemma_by_itself(q: Progress, ls: Seq<Seq<char>>)
    requires
        ls.len() > 0,
        header(ls[0]) is Some,
    ensures
        ({
            let r = read_more(start(), ls);
            &&& r.blocks.len() > 0
            &&& read_more(q, ls).blocks == q.blocks + r.blocks
            &&& read_more(q, ls).open == r.open
        }),
    decreases ls.len(),
{
    if ls.len() == 1 {
        assert(ls =~= seq![ls[0]]);
        lemma_one(q, ls[0]);
        lemma_one(start(), ls[0]);
        assert(read_more(q, ls).blocks =~= q.blocks + read_more(start(), ls).blocks);
    } else {
        lemma_by_itself(q, ls.drop_last());
        let (x, y) = (read_more(start(), ls.drop_last()), read_more(q, ls.drop_last()));
        assert(y.blocks.last() == x.blocks.last());
        assert(read_more(q, ls).blocks =~= q.blocks + read_more(start(), ls).blocks);
    }
}

/// A listing joined to another one gives the blocks of both in turn, where the
/// other one begins with a header that can be read. The line feed that may end the
/// first one makes no difference.
pub proof fn law_joined_listings(a: Seq<char>, b: Seq<char>)
    requires
        text::lines(b).len() > 0,
        header(text::lines(b)[0]) is Some,
    ensures
        streams::listed(joined(a, b)) == streams::listed(a) + streams::listed(b),
        streams::listed(a.push('\n')) == streams::listed(a),
{
    let none = Seq::<char>::empty();
    lemma_read_joined(start(), a, none, 0);
    assert(joined(a, none) =~= a.push('\n'));
    lemma_from_start(text::lines(a.push('\n')));
    lemma_read_joined(start(), a, b, 0);
    lemma_from_start(text::lines(joined(a, b)));
    lemma_from_start(text::lines(a));
    lemma_from_start(text::lines(b));
    lemma_by_itself(streams::read_lines(text::lines(a)), text::lines(b));
}

/// The numbers of the header lines that can be read, in their order.
pub open spec fn headers(ls: Seq<Seq<char>>) -> Seq<u32>
    decreases ls.len(),
{
    if ls.len() == 0 {
        Seq::empty()
    } else {
        match header(ls.last()) {
            Some(id) => headers(ls.drop_last()).push(id),
            None => headers(ls.drop_last()),
        }
    }
}

/// The blocks of a listing have the numbers of its header lines, in their order
/// and with those that occur twice; without such a line there is no block,
/// whatever other lines there are.
pub proof fn law_ids_in_order(listing: Seq<char>)
    ensures
        streams::listed(listing).map_values(|b: Block| b.id) == headers(text::lines(listing)),
{
    lemma_ids(text::lines(listing));
}

proof fn lemma_ids(ls: Seq<Seq<char>>)
    ensures
        streams::read_lines(ls).blocks.map_values(|b: Block| b.id) == headers(ls),
    decreases ls.len(),
{
    let ids = streams::read_lines(ls).blocks.map_values(|b: Block| b.id);
    if ls.len() == 0 {
        assert(ids =~= headers(ls));
    } else {
        lemma_ids(ls.drop_last());
        let before = streams::read_lines(ls.drop_last()).blocks.map_values(|b: Block| b.id);
        match header(ls.last()) {
            Some(id) => {
                assert(ids =~= before.push(id));
            },
            None => {
                assert(ids =~= before);
            },
        }
    }
}

} // verus!
