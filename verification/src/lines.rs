//! Newline-terminated records: framing bytes into lines and back.
//!
//! A log is a sequence of lines, each ended by a newline byte. A reader takes complete
//! lines only: bytes after the last newline belong to a record still being written.

use vstd::prelude::*;

verus! {

/// Whether `bytes` is one complete line: a newline at its end and none before.
pub open spec fn one_line(bytes: Seq<u8>) -> bool {
    bytes.len() > 0 && bytes.last() == 10 && !bytes.drop_last().contains(10u8)
}

/// The bytes of several lines one after another.
pub open spec fn joined(lines: Seq<Seq<u8>>) -> Seq<u8>
    decreases lines.len(),
{
    if lines.len() == 0 {
        Seq::empty()
    } else {
        joined(lines.drop_last()) + lines.last()
    }
}

/// Ends a record with a newline.
pub fn terminate_line(record: Vec<u8>) -> (line: Vec<u8>)
    ensures
        line@ == record@.push(10u8),
        !record@.contains(10u8) ==> one_line(line@),
{
    let mut line = record;
    line.push(10);
    assert(line@.drop_last() =~= record@);
    line
}

/// Whether the first newline of `bytes` is at `at`.
pub open spec fn first_newline(bytes: Seq<u8>, at: int) -> bool {
    0 <= at < bytes.len() && bytes[at] == 10 && !bytes.take(at).contains(10u8)
}

/// The complete lines of `bytes`, each with its newline; what follows the last newline is
/// not a line.
pub open spec fn lines_in(bytes: Seq<u8>) -> Seq<Seq<u8>>
    decreases bytes.len(),
{
    if bytes.contains(10u8) {
        let at = choose|at: int| first_newline(bytes, at);
        if 0 <= at < bytes.len() {
            seq![bytes.take(at + 1)] + lines_in(bytes.skip(at + 1))
        } else {
            Seq::empty()
        }
    } else {
        Seq::empty()
    }
}

proof fn lemma_first_newline_unique(bytes: Seq<u8>, a: int, b: int)
    requires
        first_newline(bytes, a),
        first_newline(bytes, b),
    ensures
        a == b,
{
    if a < b {
        assert(bytes.take(b)[a] == 10);
    }
    if b < a {
        assert(bytes.take(a)[b] == 10);
    }
}

/// Splitting off the first line.
proof fn lemma_first_line(bytes: Seq<u8>, at: int)
    requires
        first_newline(bytes, at),
    ensures
        lines_in(bytes) == seq![bytes.take(at + 1)] + lines_in(bytes.skip(at + 1)),
{
    assert(bytes[at] == 10);
    let chosen = choose|k: int| first_newline(bytes, k);
    lemma_first_newline_unique(bytes, at, chosen);
}

/// The lines of a log file's bytes, each with its newline.
pub fn complete_lines(data: &Vec<u8>) -> (lines: Vec<Vec<u8>>)
    ensures
        lines@.map_values(|line: Vec<u8>| line@) == lines_in(data@),
{
    let mut lines: Vec<Vec<u8>> = Vec::new();
    let mut line: Vec<u8> = Vec::new();
    let mut i: usize = 0;
    let ghost mut start: int = 0;
    proof {
        assert(data@.skip(0) =~= data@);
        assert(lines@.map_values(|line: Vec<u8>| line@) + lines_in(data@) =~= lines_in(data@));
    }
    while i < data.len()
        invariant
            0 <= start <= i <= data@.len(),
            line@ == data@.subrange(start, i as int),
            !line@.contains(10u8),
            lines@.map_values(|line: Vec<u8>| line@) + lines_in(data@.skip(start)) == lines_in(data@),
        decreases data.len() - i,
    {
        let byte = data[i];
        let ghost before = line@;
        line.push(byte);
        i = i + 1;
        assert(line@ =~= data@.subrange(start, i as int));
        if byte == 10 {
            proof {
                let rest = data@.skip(start);
                let at = i - 1 - start;
                assert(rest.take(at) =~= before);
                assert(rest[at] == 10);
                lemma_first_line(rest, at);
                assert(rest.take(at + 1) =~= line@);
                assert(rest.skip(at + 1) =~= data@.skip(i as int));
                let old_lines = lines@.map_values(|line: Vec<u8>| line@);
                assert(lines@.push(line).map_values(|line: Vec<u8>| line@) =~= old_lines.push(line@));
                assert(old_lines.push(line@) + lines_in(data@.skip(i as int)) =~= old_lines + (
                seq![line@] + lines_in(data@.skip(i as int))));
                start = i as int;
            }
            lines.push(line);
            line = Vec::new();
            assert(line@ =~= data@.subrange(start, i as int));
        } else {
            assert(!line@.contains(10u8)) by {
                if line@.contains(10u8) {
                    let k = choose|k: int| 0 <= k < line@.len() && line@[k] == 10;
                    assert(before[k] == 10);
                }
            }
        }
    }
    proof {
        assert(data@.skip(start) =~= line@);
        assert(lines@.map_values(|line: Vec<u8>| line@) + Seq::<Seq<u8>>::empty() =~= lines@.map_values(
            |line: Vec<u8>| line@,
        ));
    }
    lines
}

proof fn lemma_joined_front(lines: Seq<Seq<u8>>)
    requires
        lines.len() > 0,
    ensures
        joined(lines) == lines[0] + joined(lines.drop_first()),
    decreases lines.len(),
{
    if lines.len() == 1 {
        assert(joined(lines.drop_last()) =~= Seq::empty());
        assert(joined(lines.drop_first()) =~= Seq::empty());
        assert(joined(lines) =~= lines[0] + joined(lines.drop_first()));
    } else {
        lemma_joined_front(lines.drop_last());
        assert(lines.drop_last().drop_first() =~= lines.drop_first().drop_last());
        assert(joined(lines) =~= lines[0] + joined(lines.drop_first()));
    }
}

/// Reading back what was written: appending complete lines one after another, with a record
/// still being written behind them, reads back as exactly those lines.
pub proof fn law_lines_read_back(lines: Seq<Seq<u8>>, unfinished: Seq<u8>)
    requires
        forall|i: int| 0 <= i < lines.len() ==> one_line(#[trigger] lines[i]),
        !unfinished.contains(10u8),
    ensures
        lines_in(joined(lines) + unfinished) == lines,
    decreases lines.len(),
{
    let bytes = joined(lines) + unfinished;
    if lines.len() == 0 {
        assert(bytes =~= unfinished);
        assert(lines_in(bytes) =~= lines);
    } else {
        lemma_joined_front(lines);
        let head = lines[0];
        let at = head.len() - 1;
        assert(one_line(head));
        assert(bytes.take(at) =~= head.drop_last());
        assert(bytes[at] == 10);
        lemma_first_line(bytes, at);
        assert(bytes.take(at + 1) =~= head);
        assert(bytes.skip(at + 1) =~= joined(lines.drop_first()) + unfinished);
        law_lines_read_back(lines.drop_first(), unfinished);
        assert(seq![head] + lines.drop_first() =~= lines);
    }
}

} // verus!
