//! The order index as text: one task identifier per line, newline-terminated,
//! no header. Rendering and parsing are exact inverses as long as no
//! identifier contains a line break — generated identifiers never do.

use vstd::prelude::*;

use crate::task::Task;

verus! {

/// The text of an order index: every identifier followed by one line break.
pub open spec fn index_text(ids: Seq<Seq<char>>) -> Seq<char>
    decreases ids.len(),
{
    if ids.len() == 0 {
        Seq::empty()
    } else {
        index_text(ids.drop_last()) + ids.last() + seq!['\n']
    }
}

/// A finished line with a carriage return before its line break dropped: a
/// file written with CRLF line endings reads back the same identifiers.
pub open spec fn chomp_cr(line: Seq<char>) -> Seq<char> {
    if line.len() > 0 && line.last() == '\r' {
        line.drop_last()
    } else {
        line
    }
}

/// One pass of line splitting: `done` holds the finished lines, `cur` the
/// line being read, and `text` what is still unread. A line break finishes
/// the current line, trimming one carriage return before it.
pub open spec fn split_lines_from(
    done: Seq<Seq<char>>,
    cur: Seq<char>,
    text: Seq<char>,
) -> (Seq<Seq<char>>, Seq<char>)
    decreases text.len(),
{
    if text.len() == 0 {
        (done, cur)
    } else if text.first() == '\n' {
        split_lines_from(done.push(chomp_cr(cur)), Seq::empty(), text.drop_first())
    } else {
        split_lines_from(done, cur.push(text.first()), text.drop_first())
    }
}

/// The lines of a text: split on line breaks, trimming the terminators (a
/// line break, or a carriage return and a line break); a final fragment
/// without a trailing break still counts as a line, untrimmed, and a
/// trailing break adds no empty line — the convention of reading a file line
/// by line.
pub open spec fn split_lines(text: Seq<char>) -> Seq<Seq<char>> {
    let r = split_lines_from(Seq::empty(), Seq::empty(), text);
    if r.1.len() == 0 {
        r.0
    } else {
        r.0.push(r.1)
    }
}

/// Renders an order index: every identifier on its own line.
pub fn render_index(ids: &Vec<String>) -> (r: String)
    ensures
        r@ == index_text(ids.deep_view()),
{
    let ghost all = ids.deep_view();
    let mut r = String::new();
    let mut i: usize = 0;
    proof {
        assert(all.take(0) =~= Seq::<Seq<char>>::empty());
    }
    while i < ids.len()
        invariant
            0 <= i <= ids.len(),
            all == ids.deep_view(),
            r@ == index_text(all.take(i as int)),
        decreases ids.len() - i,
    {
        r.append(ids[i].as_str());
        r.append("\n");
        proof {
            reveal_strlit("\n");
            assert("\n"@ =~= seq!['\n']);
            assert(all.take(i + 1).drop_last() =~= all.take(i as int));
            assert(all.take(i + 1).last() == all[i as int]);
            assert(r@ == index_text(all.take(i + 1)));
        }
        i += 1;
    }
    proof {
        assert(all.take(ids.len() as int) =~= all);
    }
    r
}

/// Parses an order index back into its identifiers, line by line.
pub fn parse_index(text: &str) -> (r: Vec<String>)
    ensures
        r.deep_view() == split_lines(text@),
{
    let n = text.unicode_len();
    let mut done: Vec<String> = Vec::new();
    let mut start: usize = 0;
    let mut i: usize = 0;
    proof {
        assert(text@.skip(0) =~= text@);
        assert(done.deep_view() =~= Seq::<Seq<char>>::empty());
        assert(text@.subrange(0, 0) =~= Seq::<char>::empty());
    }
    while i < n
        invariant
            0 <= start <= i <= n,
            n == text@.len(),
            split_lines_from(Seq::empty(), Seq::empty(), text@) == split_lines_from(
                done.deep_view(),
                text@.subrange(start as int, i as int),
                text@.skip(i as int),
            ),
        decreases n - i,
    {
        let ghost cur = text@.subrange(start as int, i as int);
        let c = text.get_char(i);
        proof {
            assert(text@.skip(i as int).first() == text@[i as int]);
            assert(text@.skip(i as int).drop_first() =~= text@.skip(i + 1));
        }
        if c == '\n' {
            let end = if i > start && text.get_char(i - 1) == '\r' {
                i - 1
            } else {
                i
            };
            proof {
                if i > start {
                    assert(cur.last() == text@[i - 1]);
                }
                assert(text@.subrange(start as int, end as int) =~= chomp_cr(cur));
            }
            let line = text.substring_char(start, end);
            let ghost prev = done.deep_view();
            done.push(String::from_str(line));
            start = i + 1;
            proof {
                assert(done.deep_view() =~= prev.push(chomp_cr(cur)));
                assert(text@.subrange(start as int, i + 1) =~= Seq::<char>::empty());
            }
        } else {
            proof {
                assert(text@.subrange(start as int, i + 1) =~= cur.push(text@[i as int]));
            }
        }
        i += 1;
    }
    proof {
        assert(text@.skip(n as int) =~= Seq::<char>::empty());
    }
    let ghost fin = split_lines_from(Seq::empty(), Seq::empty(), text@);
    if start < n {
        let line = text.substring_char(start, n);
        let ghost prev = done.deep_view();
        done.push(String::from_str(line));
        proof {
            assert(fin.1.len() > 0);
            assert(done.deep_view() =~= prev.push(fin.1));
        }
    } else {
        proof {
            assert(text@.subrange(start as int, n as int).len() == 0);
        }
    }
    done
}

/// Splitting distributes over concatenation of the unread text.
proof fn lemma_split_app(done: Seq<Seq<char>>, cur: Seq<char>, a: Seq<char>, b: Seq<char>)
    ensures
        split_lines_from(done, cur, a + b) == ({
            let m = split_lines_from(done, cur, a);
            split_lines_from(m.0, m.1, b)
        }),
    decreases a.len(),
{
    if a.len() == 0 {
        assert(a + b =~= b);
    } else {
        assert((a + b).first() == a.first());
        assert((a + b).drop_first() =~= a.drop_first() + b);
        if a.first() == '\n' {
            lemma_split_app(done.push(chomp_cr(cur)), Seq::empty(), a.drop_first(), b);
        } else {
            lemma_split_app(done, cur.push(a.first()), a.drop_first(), b);
        }
    }
}

/// Reading text without a line break only extends the current line.
proof fn lemma_split_no_break(done: Seq<Seq<char>>, cur: Seq<char>, text: Seq<char>)
    requires
        forall|i: int| 0 <= i < text.len() ==> text[i] != '\n',
    ensures
        split_lines_from(done, cur, text) == (done, cur + text),
    decreases text.len(),
{
    if text.len() == 0 {
        assert(cur + text =~= cur);
    } else {
        lemma_split_no_break(done, cur.push(text.first()), text.drop_first());
        assert(cur.push(text.first()) + text.drop_first() =~= cur + text);
    }
}

/// Splitting a rendered index consumes it whole: every identifier becomes a
/// finished line and nothing is left pending.
proof fn lemma_split_of_index(ids: Seq<Seq<char>>)
    requires
        forall|i: int| 0 <= i < ids.len() ==> !(#[trigger] ids[i]).contains('\n'),
        forall|i: int|
            0 <= i < ids.len() ==> ((#[trigger] ids[i]).len() > 0 ==> ids[i].last() != '\r'),
    ensures
        split_lines_from(Seq::empty(), Seq::empty(), index_text(ids)) == (
            ids,
            Seq::<char>::empty(),
        ),
    decreases ids.len(),
{
    if ids.len() == 0 {
        assert(ids =~= Seq::<Seq<char>>::empty());
    } else {
        let dl = ids.drop_last();
        let last = ids.last();
        lemma_split_of_index(dl);
        assert(index_text(ids) =~= index_text(dl) + (last + seq!['\n']));
        lemma_split_app(Seq::empty(), Seq::empty(), index_text(dl), last + seq!['\n']);
        lemma_split_app(dl, Seq::empty(), last, seq!['\n']);
        assert(forall|i: int| 0 <= i < last.len() ==> last[i] != '\n');
        lemma_split_no_break(dl, Seq::empty(), last);
        assert(Seq::<char>::empty() + last =~= last);
        assert(seq!['\n'].first() == '\n');
        assert(chomp_cr(last) == last);
        assert(split_lines_from(dl, last, seq!['\n']) == split_lines_from(
            dl.push(last),
            Seq::empty(),
            seq!['\n'].drop_first(),
        ));
        assert(seq!['\n'].drop_first() =~= Seq::<char>::empty());
        assert(dl.push(last) =~= ids);
    }
}

/// Round trip of the order index: rendering identifiers and splitting the
/// text back yields exactly the identifiers rendered, as long as none of
/// them contains a line break or ends in a carriage return.
pub proof fn lemma_index_round_trip(ids: Seq<Seq<char>>)
    requires
        forall|i: int| 0 <= i < ids.len() ==> !(#[trigger] ids[i]).contains('\n'),
        forall|i: int|
            0 <= i < ids.len() ==> ((#[trigger] ids[i]).len() > 0 ==> ids[i].last() != '\r'),
    ensures
        split_lines(index_text(ids)) == ids,
{
    lemma_split_of_index(ids);
}

/// Well-formed generated identifiers contain neither a line break nor a
/// carriage return, so an index rendered from them always parses back
/// exactly.
pub proof fn lemma_wf_ids_round_trip(ids: Seq<Seq<char>>)
    requires
        forall|i: int| 0 <= i < ids.len() ==> crate::task::id_wf(#[trigger] ids[i]),
    ensures
        split_lines(index_text(ids)) == ids,
{
    assert forall|i: int| 0 <= i < ids.len() implies !(#[trigger] ids[i]).contains('\n') by {
        if ids[i].contains('\n') {
            let k = choose|k: int| 0 <= k < ids[i].len() && ids[i][k] == '\n';
            assert(crate::task::id_char('\n'));
        }
    }
    assert forall|i: int|
        0 <= i < ids.len() implies ((#[trigger] ids[i]).len() > 0 ==> ids[i].last() != '\r') by {
        assert(crate::task::id_char(ids[i][ids[i].len() - 1]) ==> ids[i][ids[i].len() - 1]
            != '\r');
    }
    lemma_index_round_trip(ids);
}

/// The identifiers of a listing, in listing order: what the order index is
/// rewritten with after a batch.
pub fn listing_ids(tasks: &Vec<Task>) -> (r: Vec<String>)
    ensures
        r.deep_view() == crate::laws::ids_of(tasks.deep_view()),
{
    let ghost all = tasks.deep_view();
    let mut r: Vec<String> = Vec::new();
    let mut i: usize = 0;
    while i < tasks.len()
        invariant
            0 <= i <= tasks.len(),
            all == tasks.deep_view(),
            r.deep_view().len() == i,
            forall|j: int| 0 <= j < i ==> #[trigger] r.deep_view()[j] == all[j].id,
        decreases tasks.len() - i,
    {
        let ghost prev = r.deep_view();
        r.push(tasks[i].id.clone());
        proof {
            assert forall|j: int| 0 <= j < i + 1 implies #[trigger] r.deep_view()[j]
                == all[j].id by {
                if j < i {
                    assert(r.deep_view()[j] == prev[j]);
                }
            }
        }
        i += 1;
    }
    proof {
        assert(r.deep_view() =~= crate::laws::ids_of(all));
    }
    r
}

} // verus!
