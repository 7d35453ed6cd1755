//! The line-level grammar of the credentials file: splitting text into
//! lines, joining lines back into text, and the classification of a line
//! as a section header (`[name]`), a blank line, or a `key=value` row.

use vstd::prelude::*;

use crate::strs::{
    contains_char, find_char, first_at, lemma_first_at, lemma_first_at_is,
};

verus! {

pub open spec fn no_newline(l: Seq<char>) -> bool {
    forall|j: int| 0 <= j < l.len() ==> l[j] != '\n'
}

/// A newline-terminated line drops one carriage return before the
/// newline, so `\r\n` works as a line terminator too.
pub open spec fn strip_cr(l: Seq<char>) -> Seq<char> {
    if l.len() > 0 && l[l.len() - 1] == '\r' {
        l.take(l.len() - 1)
    } else {
        l
    }
}

/// Whether CRLF stripping leaves the line as it is.
pub open spec fn cr_clean(l: Seq<char>) -> bool {
    strip_cr(l) == l
}

/// Splits text at every newline, dropping one carriage return before
/// each newline; a trailing newline produces no empty final line.
pub open spec fn split_lines(s: Seq<char>) -> Seq<Seq<char>>
    decreases s.len(),
{
    if s.len() == 0 {
        Seq::empty()
    } else {
        let i = first_at(s, '\n');
        if i >= s.len() {
            seq![s]
        } else {
            seq![strip_cr(s.take(i as int))] + split_lines(s.skip(i as int + 1))
        }
    }
}

/// Joins lines into text, terminating every line with a newline.
pub open spec fn join_lines(ls: Seq<Seq<char>>) -> Seq<char>
    decreases ls.len(),
{
    if ls.len() == 0 {
        Seq::empty()
    } else {
        ls[0] + seq!['\n'] + join_lines(ls.drop_first())
    }
}

/// Every line produced by `split_lines` is free of newlines.
pub proof fn lemma_split_lines_no_newline(s: Seq<char>)
    ensures
        forall|i: int|
            0 <= i < split_lines(s).len() ==> no_newline(#[trigger] split_lines(s)[i]),
    decreases s.len(),
{
    if s.len() > 0 {
        lemma_first_at(s, '\n');
        let i = first_at(s, '\n');
        if i >= s.len() {
            assert(no_newline(s));
        } else {
            lemma_split_lines_no_newline(s.skip(i as int + 1));
            assert forall|j: int|
                0 <= j < split_lines(s).len() implies no_newline(
                #[trigger] split_lines(s)[j],
            ) by {
                if j == 0 {
                    let seg = strip_cr(s.take(i as int));
                    assert forall|m: int| 0 <= m < seg.len() implies seg[m] != '\n' by {
                        assert(seg[m] == s.take(i as int)[m]);
                        assert(s.take(i as int)[m] == s[m]);
                    }
                } else {
                    assert(split_lines(s)[j] == split_lines(s.skip(i as int + 1))[j - 1]);
                }
            }
        }
    }
}

/// Splitting undoes joining, as long as no line contains a newline and
/// none ends with a carriage return.
pub proof fn lemma_split_of_join(ls: Seq<Seq<char>>)
    requires
        forall|i: int| 0 <= i < ls.len() ==> no_newline(#[trigger] ls[i]) && cr_clean(ls[i]),
    ensures
        split_lines(join_lines(ls)) == ls,
    decreases ls.len(),
{
    if ls.len() == 0 {
        assert(split_lines(join_lines(ls)) =~= ls);
    } else {
        let l0 = ls[0];
        let rest = join_lines(ls.drop_first());
        let s = join_lines(ls);
        assert(s == l0 + seq!['\n'] + rest);
        assert(s.len() == l0.len() + 1 + rest.len());
        assert(s[l0.len() as int] == '\n');
        assert forall|j: int| 0 <= j < l0.len() implies s[j] != '\n' by {
            assert(s[j] == l0[j]);
            assert(no_newline(ls[0]));
        }
        lemma_first_at_is(s, '\n', l0.len() as int);
        assert(s.take(l0.len() as int) =~= l0);
        assert(cr_clean(ls[0]));
        assert(strip_cr(s.take(l0.len() as int)) == l0);
        assert(s.skip(l0.len() as int + 1) =~= rest);
        assert forall|i: int|
            0 <= i < ls.drop_first().len() implies no_newline(
            #[trigger] ls.drop_first()[i],
        ) && cr_clean(ls.drop_first()[i]) by {
            assert(ls.drop_first()[i] == ls[i + 1]);
        }
        lemma_split_of_join(ls.drop_first());
        assert(split_lines(s) =~= ls);
    }
}

/// Joining distributes over concatenation of line sequences.
pub proof fn lemma_join_lines_concat(x: Seq<Seq<char>>, y: Seq<Seq<char>>)
    ensures
        join_lines(x + y) == join_lines(x) + join_lines(y),
    decreases x.len(),
{
    if x.len() == 0 {
        assert(x + y =~= y);
        assert(join_lines(x) + join_lines(y) =~= join_lines(y));
    } else {
        assert((x + y).drop_first() =~= x.drop_first() + y);
        lemma_join_lines_concat(x.drop_first(), y);
        assert((x + y)[0] == x[0]);
        assert(join_lines(x + y) =~= join_lines(x) + join_lines(y));
    }
}


/// Joining a single line appends just that line and a newline.
pub proof fn lemma_join_one(l: Seq<char>)
    ensures
        join_lines(seq![l]) == l + seq!['\n'],
{
    assert(seq![l][0] == l);
    assert(seq![l].drop_first() =~= Seq::<Seq<char>>::empty());
    assert(join_lines(Seq::<Seq<char>>::empty()) =~= Seq::<char>::empty());
    assert(join_lines(seq![l]) =~= l + seq!['\n']);
}

/// A section header: `[`, one or more characters none of which is `]`,
/// then `]`, and nothing else on the line.
pub open spec fn is_header_line(l: Seq<char>) -> bool {
    &&& l.len() >= 3
    &&& l[0] == '['
    &&& l[l.len() - 1] == ']'
    &&& forall|j: int| 1 <= j < l.len() - 1 ==> l[j] != ']'
}

pub open spec fn header_name(l: Seq<char>) -> Seq<char> {
    l.subrange(1, l.len() - 1)
}

pub open spec fn header_line_of(name: Seq<char>) -> Seq<char> {
    seq!['['] + name + seq![']']
}

pub open spec fn has_eq(l: Seq<char>) -> bool {
    contains_char(l, '=')
}

pub open spec fn attr_key(l: Seq<char>) -> Seq<char> {
    l.take(first_at(l, '=') as int)
}

pub open spec fn attr_value(l: Seq<char>) -> Seq<char> {
    l.skip((first_at(l, '=') + 1) as int)
}

pub open spec fn attr_line_of(k: Seq<char>, v: Seq<char>) -> Seq<char> {
    k + seq!['='] + v
}

/// A profile name that can be written as a header and read back.
pub open spec fn valid_name(n: Seq<char>) -> bool {
    &&& n.len() >= 1
    &&& forall|j: int| 0 <= j < n.len() ==> n[j] != ']' && n[j] != '\n'
}

/// A key/value pair that can be written as a `key=value` row and read
/// back: no `=` in the key, no newline anywhere, and the whole row must
/// not look like a section header.
pub open spec fn valid_attr(k: Seq<char>, v: Seq<char>) -> bool {
    &&& forall|j: int| 0 <= j < k.len() ==> k[j] != '=' && k[j] != '\n'
    &&& forall|j: int| 0 <= j < v.len() ==> v[j] != '\n'
    &&& !is_header_line(attr_line_of(k, v))
}

/// Rendering a valid name as `[name]` yields a header line for that name.
pub proof fn lemma_header_line_of(name: Seq<char>)
    requires
        valid_name(name),
    ensures
        is_header_line(header_line_of(name)),
        header_name(header_line_of(name)) == name,
        no_newline(header_line_of(name)),
{
    let l = header_line_of(name);
    assert(l.len() == name.len() + 2);
    assert(l[0] == '[');
    assert(l[l.len() - 1] == ']');
    assert forall|j: int| 1 <= j < l.len() - 1 implies l[j] != ']' by {
        assert(l[j] == name[j - 1]);
    }
    assert forall|j: int| 0 <= j < l.len() implies l[j] != '\n' by {
        if 1 <= j < l.len() - 1 {
            assert(l[j] == name[j - 1]);
        }
    }
    assert(header_name(l) =~= name);
}

/// Rendering a valid pair as `key=value` yields a row that reads back as
/// the same pair.
pub proof fn lemma_attr_line_of(k: Seq<char>, v: Seq<char>)
    requires
        valid_attr(k, v),
    ensures
        attr_line_of(k, v).len() > 0,
        !is_header_line(attr_line_of(k, v)),
        has_eq(attr_line_of(k, v)),
        attr_key(attr_line_of(k, v)) == k,
        attr_value(attr_line_of(k, v)) == v,
        no_newline(attr_line_of(k, v)),
{
    let l = attr_line_of(k, v);
    assert(l.len() == k.len() + 1 + v.len());
    assert(l[k.len() as int] == '=');
    assert forall|j: int| 0 <= j < k.len() implies l[j] != '=' by {
        assert(l[j] == k[j]);
    }
    lemma_first_at_is(l, '=', k.len() as int);
    assert(attr_key(l) =~= k);
    assert(attr_value(l) =~= v);
    assert forall|j: int| 0 <= j < l.len() implies l[j] != '\n' by {
        if j < k.len() {
            assert(l[j] == k[j]);
        } else if j > k.len() {
            assert(l[j] == v[j - k.len() - 1]);
        }
    }
}


/// A line with an `=` is exactly its key, the `=`, and its value.
pub proof fn lemma_attr_recompose(l: Seq<char>)
    requires
        has_eq(l),
    ensures
        attr_line_of(attr_key(l), attr_value(l)) == l,
{
    lemma_first_at(l, '=');
    let i = first_at(l, '=') as int;
    assert(l[i] == '=');
    assert(attr_line_of(attr_key(l), attr_value(l)) =~= l);
}

/// The name read out of a header line is a valid profile name.
pub proof fn lemma_header_name_valid(l: Seq<char>)
    requires
        is_header_line(l),
        no_newline(l),
    ensures
        valid_name(header_name(l)),
{
    let n = header_name(l);
    assert(n.len() == l.len() - 2);
    assert forall|j: int| 0 <= j < n.len() implies n[j] != ']' && n[j] != '\n' by {
        assert(n[j] == l[j + 1]);
    }
}

/// The shape of one line of the credentials file.
pub(crate) enum LineKind {
    Header(String),
    Blank,
    Attr(String, String),
    Bad,
}

/// Decides which of the grammar's line forms a line belongs to, and
/// extracts the header name or the key/value pair.
pub(crate) fn classify_line(l: &str) -> (r: LineKind)
    ensures
        match r {
            LineKind::Header(name) => is_header_line(l@) && name@ == header_name(l@),
            LineKind::Blank => l@.len() == 0,
            LineKind::Attr(k, v) => {
                &&& !is_header_line(l@)
                &&& l@.len() > 0
                &&& has_eq(l@)
                &&& k@ == attr_key(l@)
                &&& v@ == attr_value(l@)
            },
            LineKind::Bad => !is_header_line(l@) && l@.len() > 0 && !has_eq(l@),
        },
{
    let n = l.unicode_len();
    if n == 0 {
        return LineKind::Blank;
    }
    let shaped = n >= 3 && l.get_char(0) == '[' && l.get_char(n - 1) == ']';
    if shaped {
        let mut j: usize = 1;
        let mut clean = true;
        while j < n - 1
            invariant
                1 <= j <= n - 1,
                n >= 3,
                n == l@.len(),
                clean == (forall|m: int| 1 <= m < j ==> l@[m] != ']'),
            decreases n - 1 - j,
        {
            if l.get_char(j) == ']' {
                clean = false;
            }
            j += 1;
        }
        if clean {
            assert(is_header_line(l@));
            let name = l.substring_char(1, n - 1);
            proof {
                assert(name@ =~= header_name(l@));
            }
            return LineKind::Header(String::from_str(name));
        }
    }
    assert(!is_header_line(l@));
    let i = find_char(l, '=');
    if i < n {
        let k = l.substring_char(0, i);
        let v = l.substring_char(i + 1, n);
        proof {
            assert(k@ =~= attr_key(l@));
            assert(v@ =~= attr_value(l@));
        }
        LineKind::Attr(String::from_str(k), String::from_str(v))
    } else {
        LineKind::Bad
    }
}

/// Splits text into its lines.
pub fn split_text(content: &str) -> (r: Vec<String>)
    ensures
        r@.map_values(|s: String| s@) == split_lines(content@),
{
    let n = content.unicode_len();
    let mut lines: Vec<String> = Vec::new();
    let mut start: usize = 0;
    let mut i: usize = 0;
    proof {
        assert(content@.skip(0) =~= content@);
        assert(lines@.map_values(|s: String| s@) =~= Seq::<Seq<char>>::empty());
    }
    while i < n
        invariant
            0 <= start <= i <= n,
            n == content@.len(),
            forall|j: int| start <= j < i ==> content@[j] != '\n',
            split_lines(content@) == lines@.map_values(|s: String| s@) + split_lines(
                content@.skip(start as int),
            ),
        decreases n - i,
    {
        if content.get_char(i) == '\n' {
            let end = if i > start && content.get_char(i - 1) == '\r' {
                i - 1
            } else {
                i
            };
            let line = String::from_str(content.substring_char(start, end));
            proof {
                let tail = content@.skip(start as int);
                assert(tail[i - start] == content@[i as int]);
                assert forall|j: int| 0 <= j < i - start implies tail[j] != '\n' by {
                    assert(tail[j] == content@[start + j]);
                }
                lemma_first_at_is(tail, '\n', i - start);
                let seg = tail.take(i - start);
                if i > start && content@[i as int - 1] == '\r' {
                    assert(seg[seg.len() - 1] == content@[i as int - 1]);
                    assert(strip_cr(seg) =~= seg.take(i - start - 1));
                    assert(seg.take(i - start - 1) =~= line@);
                } else {
                    if seg.len() > 0 {
                        assert(seg[seg.len() - 1] == content@[i as int - 1]);
                    }
                    assert(strip_cr(seg) =~= seg);
                    assert(seg =~= line@);
                }
                assert(tail.skip(i - start + 1) =~= content@.skip(i + 1));
                assert((lines@.map_values(|s: String| s@) + split_lines(tail))
                    =~= lines@.push(line).map_values(|s: String| s@) + split_lines(
                    content@.skip(i + 1),
                ));
            }
            lines.push(line);
            start = i + 1;
        }
        i += 1;
    }
    if start < n {
        let line = String::from_str(content.substring_char(start, n));
        proof {
            let tail = content@.skip(start as int);
            assert forall|j: int| 0 <= j < tail.len() implies tail[j] != '\n' by {
                assert(tail[j] == content@[start + j]);
            }
            lemma_first_at(tail, '\n');
            assert(first_at(tail, '\n') >= tail.len());
            assert(tail =~= line@);
            assert((lines@.map_values(|s: String| s@) + split_lines(tail))
                =~= lines@.push(line).map_values(|s: String| s@));
        }
        lines.push(line);
    } else {
        proof {
            assert(content@.skip(start as int).len() == 0);
            assert((lines@.map_values(|s: String| s@) + split_lines(
                content@.skip(start as int),
            )) =~= lines@.map_values(|s: String| s@));
        }
    }
    lines
}

} // verus!
