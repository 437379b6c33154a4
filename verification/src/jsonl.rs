use vstd::prelude::*;
use vstd::string::StringExecFns;

verus! {

/// The text that holds each of `lines` followed by a line feed, with
/// nothing before, between or after them.
pub open spec fn framed(lines: Seq<Seq<char>>) -> Seq<char>
    decreases lines.len(),
{
    if lines.len() == 0 {
        Seq::empty()
    } else {
        framed(lines.drop_last()) + lines.last() + seq!['\n']
    }
}

/// The number of line feeds in `text`.
pub open spec fn line_feeds(text: Seq<char>) -> nat
    decreases text.len(),
{
    if text.len() == 0 {
        0
    } else if text.last() == '\n' {
        line_feeds(text.drop_last()) + 1
    } else {
        line_feeds(text.drop_last())
    }
}

/// The texts of the strings `lines`.
pub open spec fn texts(lines: Seq<String>) -> Seq<Seq<char>> {
    Seq::new(lines.len(), |i: int| lines[i]@)
}

proof fn lemma_line_feeds_concat(a: Seq<char>, b: Seq<char>)
    ensures
        line_feeds(a + b) == line_feeds(a) + line_feeds(b),
    decreases b.len(),
{
    if b.len() == 0 {
        assert(a + b =~= a);
    } else {
        lemma_line_feeds_concat(a, b.drop_last());
        assert((a + b).drop_last() =~= a + b.drop_last());
    }
}

proof fn lemma_line_feeds_none(a: Seq<char>)
    requires
        !a.contains('\n'),
    ensures
        line_feeds(a) == 0,
    decreases a.len(),
{
    if a.len() > 0 {
        assert(a[a.len() - 1] != '\n');
        assert forall|c: char| a.drop_last().contains(c) implies a.contains(c) by {
            let i = choose|i: int| 0 <= i < a.drop_last().len() && a.drop_last()[i] == c;
            assert(a[i] == c);
        }
        lemma_line_feeds_none(a.drop_last());
    }
}

/// Lines that hold no line feed themselves give a text with exactly one
/// line feed for each of them.
pub proof fn lemma_framed_line_count(lines: Seq<Seq<char>>)
    requires
        forall|i: int| 0 <= i < lines.len() ==> !(#[trigger] lines[i]).contains('\n'),
    ensures
        line_feeds(framed(lines)) == lines.len(),
    decreases lines.len(),
{
    if lines.len() > 0 {
        lemma_framed_line_count(lines.drop_last());
        lemma_line_feeds_none(lines.last());
        lemma_line_feeds_concat(framed(lines.drop_last()), lines.last());
        lemma_line_feeds_concat(framed(lines.drop_last()) + lines.last(), seq!['\n']);
        let feed = seq!['\n'];
        assert(feed.len() == 1 && feed.last() == '\n');
        assert(feed.drop_last() =~= Seq::<char>::empty());
        assert(line_feeds(feed.drop_last()) == 0);
        assert(line_feeds(feed) == 1);
    }
}

/// Joins `lines` into the text of a file of lines: each line followed by a
/// line feed.
pub fn frame_lines(lines: &Vec<String>) -> (out: String)
    ensures
        out@ == framed(texts(lines@)),
{
    let mut out = String::new();
    let mut i: usize = 0;
    while i < lines.len()
        invariant
            i <= lines@.len(),
            out@ == framed(texts(lines@).take(i as int)),
        decreases lines@.len() - i,
    {
        proof {
            reveal_strlit("\n");
            assert(texts(lines@).take(i + 1).drop_last() =~= texts(lines@).take(i as int));
            assert("\n"@ =~= seq!['\n']);
        }
        out.append(lines[i].as_str());
        out.append("\n");
        i += 1;
    }
    assert(texts(lines@).take(lines@.len() as int) =~= texts(lines@));
    out
}

} // verus!
