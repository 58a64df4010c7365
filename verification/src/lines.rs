//! Cutting a text into lines and putting lines back together.
use crate::text::{strs, texts, trimmed, trimmed_end};
use vstd::prelude::*;
use vstd::string::*;

verus! {

/// The pieces between the newlines of `s`: one more than there are newlines.
pub open spec fn split_newlines(s: Seq<char>) -> Seq<Seq<char>>
    decreases s.len(),
{
    if s.len() == 0 {
        seq![Seq::empty()]
    } else {
        let before = split_newlines(s.drop_last());
        if s.last() == '\n' {
            before.push(Seq::empty())
        } else {
            before.drop_last().push(before.last().push(s.last()))
        }
    }
}

/// `line` without one carriage return at its end, if there is one.
pub open spec fn without_return(line: Seq<char>) -> Seq<char> {
    if line.len() > 0 && line.last() == '\r' {
        line.drop_last()
    } else {
        line
    }
}

/// The lines of `s`, each without its `\n` or `\r\n`. What follows the last
/// newline is a line only if it is not empty, and it keeps a carriage return.
pub open spec fn lines_of(s: Seq<char>) -> Seq<Seq<char>> {
    let pieces = split_newlines(s);
    let ended = pieces.drop_last().map_values(|p: Seq<char>| without_return(p));
    if pieces.last().len() == 0 {
        ended
    } else {
        ended.push(pieces.last())
    }
}

/// `parts`, one after the other, with `sep` between each two.
pub open spec fn joined(parts: Seq<Seq<char>>, sep: Seq<char>) -> Seq<char>
    decreases parts.len(),
{
    if parts.len() == 0 {
        Seq::empty()
    } else if parts.len() == 1 {
        parts[0]
    } else {
        joined(parts.drop_last(), sep) + sep + parts.last()
    }
}

/// Whether the last character of `s` is a newline.
pub open spec fn ends_with_newline(s: Seq<char>) -> bool {
    s.len() > 0 && s.last() == '\n'
}

/// The pieces between the newlines of `s`, without the empty one after a
/// newline at its end.
pub open spec fn body_lines(s: Seq<char>) -> Seq<Seq<char>> {
    let pieces = split_newlines(s);
    if pieces.last().len() == 0 {
        pieces.drop_last()
    } else {
        pieces
    }
}

/// `lines` with newlines between them, and one more at the end if `newline`.
pub open spec fn rejoined(lines: Seq<Seq<char>>, newline: bool) -> Seq<char> {
    if newline {
        joined(lines, "\n"@) + "\n"@
    } else {
        joined(lines, "\n"@)
    }
}

/// The last piece is empty exactly when nothing follows the last newline.
pub proof fn lemma_split_last(s: Seq<char>)
    ensures
        split_newlines(s).len() >= 1,
        (split_newlines(s).last().len() == 0) <==> (s.len() == 0 || ends_with_newline(s)),
    decreases s.len(),
{
    if s.len() > 0 {
        lemma_split_last(s.drop_last());
    }
}

/// Joining with newlines undoes the split at newlines, and no piece holds one.
pub proof fn lemma_split_join(s: Seq<char>)
    ensures
        joined(split_newlines(s), "\n"@) == s,
        forall|i: int| #![trigger split_newlines(s)[i]]
            0 <= i < split_newlines(s).len() ==> !split_newlines(s)[i].contains('\n'),
    decreases s.len(),
{
    reveal_strlit("\n");
    if s.len() > 0 {
        let before = split_newlines(s.drop_last());
        let now = split_newlines(s);
        lemma_split_join(s.drop_last());
        lemma_split_last(s.drop_last());
        assert(s =~= s.drop_last().push(s.last()));
        if s.last() == '\n' {
            assert(now.drop_last() =~= before);
            assert(joined(now, "\n"@) =~= s);
        } else {
            assert(now.drop_last() =~= before.drop_last());
            assert(joined(now, "\n"@) =~= s);
            let piece = before.last().push(s.last());
            assert(!piece.contains('\n')) by {
                if piece.contains('\n') {
                    let k = choose|k: int| 0 <= k < piece.len() && piece[k] == '\n';
                    assert(before.last()[k] == '\n');
                }
            }
        }
        assert forall|i: int| #![trigger now[i]] 0 <= i < now.len() implies !now[i].contains(
            '\n',
        ) by {
            if i < before.len() - 1 {
                assert(now[i] == before[i]);
            }
        }
    }
}

/// Taking a text apart into its body lines and putting them together again
/// gives back the text.
pub proof fn lemma_rejoin_body(s: Seq<char>)
    requires
        s.len() > 0,
    ensures
        rejoined(body_lines(s), ends_with_newline(s)) == s,
{
    reveal_strlit("\n");
    lemma_split_last(s);
    lemma_split_join(s);
    let pieces = split_newlines(s);
    if ends_with_newline(s) {
        assert(s =~= s.drop_last().push('\n'));
        assert(pieces.drop_last() =~= split_newlines(s.drop_last()));
        lemma_split_join(s.drop_last());
    }
}

/// Joining two lists one after the other is joining what each gives.
pub proof fn lemma_joined_add(a: Seq<Seq<char>>, b: Seq<Seq<char>>, sep: Seq<char>)
    requires
        a.len() > 0,
        b.len() > 0,
    ensures
        joined(a + b, sep) == joined(a, sep) + sep + joined(b, sep),
    decreases b.len(),
{
    assert((a + b).drop_last() =~= a + b.drop_last());
    if b.len() == 1 {
        assert(a + b.drop_last() =~= a);
    } else {
        lemma_joined_add(a, b.drop_last(), sep);
    }
    assert(joined(a + b, sep) =~= joined(a, sep) + sep + joined(b, sep));
}

/// What is joined ends with its last part.
pub proof fn lemma_joined_last(parts: Seq<Seq<char>>, sep: Seq<char>)
    requires
        parts.len() > 0,
        parts.last().len() > 0,
    ensures
        joined(parts, sep).len() > 0,
        joined(parts, sep).last() == parts.last().last(),
{
}

/// Lines put together end with a newline exactly when they were given one,
/// provided that the last of them does not end with one itself.
pub proof fn lemma_rejoined_newline(lines: Seq<Seq<char>>, newline: bool)
    requires
        !newline ==> lines.len() > 0 && lines.last().len() > 0 && lines.last().last() != '\n',
    ensures
        ends_with_newline(rejoined(lines, newline)) == newline,
{
    reveal_strlit("\n");
    if !newline {
        lemma_joined_last(lines, "\n"@);
    }
}

/// The last body line of a text that no newline ends: it is not empty and
/// holds no newline.
pub proof fn lemma_body_last(s: Seq<char>)
    requires
        s.len() > 0,
        !ends_with_newline(s),
    ensures
        body_lines(s).len() > 0,
        body_lines(s).last().len() > 0,
        body_lines(s).last().last() != '\n',
{
    lemma_split_last(s);
    lemma_split_join(s);
    let last = split_newlines(s)[split_newlines(s).len() - 1];
    assert(last[last.len() - 1] == last.last());
}

/// A newline in the middle parts the pieces before it from those behind it.
pub proof fn lemma_split_add(a: Seq<char>, b: Seq<char>)
    ensures
        split_newlines(a + "\n"@ + b) == split_newlines(a) + split_newlines(b),
    decreases b.len(),
{
    reveal_strlit("\n");
    let whole = a + "\n"@ + b;
    if b.len() == 0 {
        assert(whole.drop_last() =~= a);
        assert(split_newlines(whole) =~= split_newlines(a) + split_newlines(b));
    } else {
        let shorter = b.drop_last();
        assert(whole.drop_last() =~= a + "\n"@ + shorter);
        lemma_split_add(a, shorter);
        lemma_split_last(shorter);
        assert(split_newlines(whole) =~= split_newlines(a) + split_newlines(b));
    }
}

/// A text without a newline is a single piece.
pub proof fn lemma_split_plain(s: Seq<char>)
    requires
        !s.contains('\n'),
    ensures
        split_newlines(s) == seq![s],
    decreases s.len(),
{
    if s.len() > 0 {
        assert(s[s.len() - 1] != '\n');
        assert forall|k: int| 0 <= k < s.drop_last().len() implies s.drop_last()[k] != '\n' by {
            assert(s[k] != '\n');
        }
        lemma_split_plain(s.drop_last());
        assert(s.drop_last().push(s.last()) =~= s);
        assert(split_newlines(s) =~= seq![s]);
    } else {
        assert(s =~= Seq::empty());
    }
}

/// The pieces of a part are pieces of what the part is joined to.
pub proof fn lemma_joined_pieces(parts: Seq<Seq<char>>, i: int, line: Seq<char>)
    requires
        0 <= i < parts.len(),
        split_newlines(parts[i]).contains(line),
    ensures
        split_newlines(joined(parts, "\n"@)).contains(line),
    decreases parts.len(),
{
    if parts.len() > 1 {
        let front = joined(parts.drop_last(), "\n"@);
        let all = split_newlines(joined(parts, "\n"@));
        lemma_split_add(front, parts.last());
        if i == parts.len() - 1 {
            let pieces = split_newlines(parts[i]);
            let k = choose|k: int| 0 <= k < pieces.len() && pieces[k] == line;
            assert(all[split_newlines(front).len() + k] == line);
        } else {
            lemma_joined_pieces(parts.drop_last(), i, line);
            let pieces = split_newlines(front);
            let k = choose|k: int| 0 <= k < pieces.len() && pieces[k] == line;
            assert(all[k] == line);
        }
    }
}

/// The pieces of a part that are not empty are body lines of what the part is
/// put together with.
pub proof fn lemma_rejoined_pieces(
    parts: Seq<Seq<char>>,
    newline: bool,
    i: int,
    line: Seq<char>,
)
    requires
        0 <= i < parts.len(),
        split_newlines(parts[i]).contains(line),
        line.len() > 0,
    ensures
        body_lines(rejoined(parts, newline)).contains(line),
        rejoined(parts, newline).len() > 0,
{
    reveal_strlit("\n");
    let text = joined(parts, "\n"@);
    let whole = rejoined(parts, newline);
    let pieces = split_newlines(text);
    lemma_joined_pieces(parts, i, line);
    lemma_split_last(text);
    let k = choose|k: int| 0 <= k < pieces.len() && pieces[k] == line;
    if newline {
        assert(whole.drop_last() =~= text);
        assert(split_newlines(whole) =~= pieces.push(Seq::empty()));
        assert(body_lines(whole) =~= pieces);
    } else if text.len() == 0 {
        assert(pieces[0].len() == 0);
    }
    assert(body_lines(whole)[k] == line);
}

/// Splitting at newlines undoes joining with newlines, where no part holds one.
pub proof fn lemma_split_joined(parts: Seq<Seq<char>>)
    requires
        parts.len() > 0,
        forall|i: int| 0 <= i < parts.len() ==> !(#[trigger] parts[i]).contains('\n'),
    ensures
        split_newlines(joined(parts, "\n"@)) == parts,
    decreases parts.len(),
{
    let n = parts.len() - 1;
    lemma_split_plain(parts[n]);
    if n == 0 {
        assert(parts =~= seq![parts[0]]);
    } else {
        lemma_split_joined(parts.drop_last());
        lemma_split_add(joined(parts.drop_last(), "\n"@), parts.last());
        assert(parts.drop_last() + seq![parts.last()] =~= parts);
    }
}

/// Taking apart undoes putting together, where no line holds a newline.
pub proof fn lemma_body_rejoined(lines: Seq<Seq<char>>, newline: bool)
    requires
        lines.len() > 0,
        forall|i: int| 0 <= i < lines.len() ==> !(#[trigger] lines[i]).contains('\n'),
        !newline ==> lines.last().len() > 0,
    ensures
        body_lines(rejoined(lines, newline)) == lines,
        ends_with_newline(rejoined(lines, newline)) == newline,
        rejoined(lines, newline).len() > 0,
{
    reveal_strlit("\n");
    let text = joined(lines, "\n"@);
    let whole = rejoined(lines, newline);
    lemma_split_joined(lines);
    if newline {
        assert(whole.drop_last() =~= text);
        assert(split_newlines(whole).drop_last() =~= lines);
    } else {
        let last = lines[lines.len() - 1];
        assert(last[last.len() - 1] != '\n');
        lemma_joined_last(lines, "\n"@);
    }
}

/// No body line holds a newline.
pub proof fn lemma_body_plain(s: Seq<char>)
    ensures
        forall|i: int|
            0 <= i < body_lines(s).len() ==> !(#[trigger] body_lines(s)[i]).contains('\n'),
{
    lemma_split_join(s);
    lemma_split_last(s);
    assert forall|i: int| 0 <= i < body_lines(s).len() implies !(#[trigger] body_lines(
        s,
    )[i]).contains('\n') by {
        assert(body_lines(s)[i] == split_newlines(s)[i]);
    }
}

/// A carriage return at the end makes no difference to a trimmed line.
pub proof fn lemma_without_return(line: Seq<char>)
    ensures
        trimmed_end(without_return(line)) == trimmed_end(line),
        trimmed(without_return(line)) == trimmed(line),
{
}

/// No line holds a newline.
pub proof fn lemma_lines_plain(s: Seq<char>)
    ensures
        forall|i: int|
            0 <= i < lines_of(s).len() ==> !(#[trigger] lines_of(s)[i]).contains('\n'),
{
    lemma_split_join(s);
    lemma_split_last(s);
    let pieces = split_newlines(s);
    assert forall|i: int| 0 <= i < lines_of(s).len() implies !(#[trigger] lines_of(
        s,
    )[i]).contains('\n') by {
        let line = lines_of(s)[i];
        assert(!pieces[i].contains('\n'));
        if line.contains('\n') {
            let k = choose|k: int| 0 <= k < line.len() && line[k] == '\n';
            assert(pieces[i][k] == '\n');
        }
    }
}

/// The pieces between the newlines of `s`.
pub fn split_lines(s: &str) -> (r: Vec<String>)
    ensures
        texts(r@) == split_newlines(s@),
{
    let mut done: Vec<String> = Vec::new();
    let mut current = String::new();
    for c in it: s.chars()
        invariant
            it.seq() == s@,
            texts(done@).push(current@) == split_newlines(s@.take(it.index())),
    {
        assert(s@.take(it.index() + 1).drop_last() =~= s@.take(it.index()));
        let ghost was = texts(done@);
        if c == '\n' {
            done.push(current);
            current = String::new();
            assert(texts(done@) =~= split_newlines(s@.take(it.index())));
        } else {
            assert(was.push(current@).drop_last() =~= was);
            current.push(c);
        }
    }
    assert(s@.take(s@.len() as int) =~= s@);
    let ghost before = texts(done@);
    let ghost last = current@;
    done.push(current);
    assert(texts(done@) =~= before.push(last));
    done
}

/// `line` without one carriage return at its end, if there is one.
fn strip_return(line: &str) -> (r: &str)
    ensures
        r@ == without_return(line@),
{
    let n: usize = line.unicode_len();
    if n > 0 && line.get_char(n - 1) == '\r' {
        let r = line.substring_char(0, n - 1);
        assert(line@.subrange(0, n - 1) =~= line@.drop_last());
        r
    } else {
        line
    }
}

/// The lines of `s`, each without its `\n` or `\r\n`.
pub fn lines(s: &str) -> (r: Vec<String>)
    ensures
        texts(r@) == lines_of(s@),
{
    let mut pieces = split_lines(s);
    proof {
        lemma_split_last(s@);
        assert(pieces@.len() == texts(pieces@).len());
    }
    let n: usize = pieces.len() - 1;
    let mut out: Vec<String> = Vec::new();
    let ghost ended = split_newlines(s@).drop_last().map_values(
        |p: Seq<char>| without_return(p),
    );
    for i in 0..n
        invariant
            n + 1 == pieces@.len(),
            texts(pieces@) == split_newlines(s@),
            ended == split_newlines(s@).drop_last().map_values(
                |p: Seq<char>| without_return(p),
            ),
            texts(out@) == ended.take(i as int),
    {
        let line = strip_return(pieces[i].as_str()).to_owned();
        assert(pieces@[i as int]@ == texts(pieces@)[i as int]);
        let ghost before = texts(out@);
        let ghost text = line@;
        out.push(line);
        assert(texts(out@) =~= before.push(text));
        assert(ended.take(i + 1) =~= ended.take(i as int).push(ended[i as int]));
    }
    assert(ended.take(n as int) =~= ended);
    let last = pieces.pop();
    if let Some(line) = last {
        assert(line@ == split_newlines(s@).last());
        if line.as_str().unicode_len() > 0 {
            let ghost before = texts(out@);
            let ghost text = line@;
            out.push(line);
            assert(texts(out@) =~= before.push(text));
        }
    }
    out
}

/// `parts`, one after the other, with `sep` between each two.
pub fn join(parts: &[String], sep: &str) -> (r: String)
    ensures
        r@ == joined(texts(parts@), sep@),
{
    let mut out = String::new();
    let n: usize = parts.len();
    for i in 0..n
        invariant
            n == parts@.len(),
            out@ == joined(texts(parts@).take(i as int), sep@),
    {
        let ghost now = texts(parts@).take(i + 1);
        assert(now.drop_last() =~= texts(parts@).take(i as int));
        if i > 0 {
            out.append(sep);
        }
        out.append(parts[i].as_str());
        assert(out@ =~= joined(now, sep@));
    }
    assert(texts(parts@).take(n as int) =~= texts(parts@));
    out
}

/// `parts`, one after the other, with `sep` between each two.
pub fn join_strs(parts: &[&str], sep: &str) -> (r: String)
    ensures
        r@ == joined(strs(parts@), sep@),
{
    let mut owned: Vec<String> = Vec::new();
    let n: usize = parts.len();
    for i in 0..n
        invariant
            n == parts@.len(),
            owned@.len() == i,
            forall|k: int| 0 <= k < i ==> (#[trigger] owned@[k])@ == parts@[k]@,
    {
        owned.push(parts[i].to_owned());
    }
    assert(texts(owned@) =~= strs(parts@));
    join(owned.as_slice(), sep)
}

/// `lines` with newlines between them, and one more at the end if `newline`.
pub fn rejoin(lines: &[String], newline: bool) -> (r: String)
    ensures
        r@ == rejoined(texts(lines@), newline),
{
    let mut out = join(lines, "\n");
    if newline {
        out.append("\n");
    }
    out
}

/// The body lines of `s`, and whether a newline ends it.
pub fn split_body(s: &str) -> (r: (Vec<String>, bool))
    requires
        s@.len() > 0,
    ensures
        texts(r.0@) == body_lines(s@),
        r.1 == ends_with_newline(s@),
{
    let mut pieces = split_lines(s);
    proof {
        lemma_split_last(s@);
        assert(pieces@.len() == texts(pieces@).len());
    }
    let n: usize = pieces.len() - 1;
    assert(pieces@[n as int]@ == texts(pieces@)[n as int]);
    if pieces[n].as_str().unicode_len() == 0 {
        let ghost before = texts(pieces@);
        pieces.pop();
        assert(texts(pieces@) =~= before.drop_last());
        (pieces, true)
    } else {
        (pieces, false)
    }
}

} // verus!
