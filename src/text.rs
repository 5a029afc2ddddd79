//! The content transformation: splitting text into lines and turning each
//! literal backslash-`n` pair into a real line break.
use vstd::prelude::*;
use vstd::seq_lib::lemma_flatten_concat;

verus! {

/// `s` with every non-overlapping backslash-`n` pair, taken from the left,
/// replaced by a single newline character; everything else is kept.
pub open spec fn unescape(s: Seq<char>) -> Seq<char>
    decreases s.len(),
{
    if s.len() == 0 {
        Seq::empty()
    } else if s.len() >= 2 && s[0] == '\\' && s[1] == 'n' {
        seq!['\n'] + unescape(s.subrange(2, s.len() as int))
    } else {
        seq![s[0]] + unescape(s.subrange(1, s.len() as int))
    }
}

/// `s` holds a backslash immediately followed by `n`.
pub open spec fn has_escape(s: Seq<char>) -> bool {
    exists|i: int| 0 <= i && i + 1 < s.len() && s[i] == '\\' && #[trigger] s[i + 1] == 'n'
}

/// Reading `s` from the left: the lines already ended by a newline, and the
/// text after the last newline.
pub open spec fn scan(s: Seq<char>) -> (Seq<Seq<char>>, Seq<char>)
    decreases s.len(),
{
    if s.len() == 0 {
        (Seq::empty(), Seq::empty())
    } else {
        let prev = scan(s.drop_last());
        if s.last() == '\n' {
            (prev.0.push(prev.1), Seq::empty())
        } else {
            (prev.0, prev.1.push(s.last()))
        }
    }
}

/// The lines of `s`: each newline ends a line, and text after the last
/// newline is one more line. A final newline adds no empty line.
pub open spec fn lines_of(s: Seq<char>) -> Seq<Seq<char>> {
    let (done, rest) = scan(s);
    if rest.len() == 0 {
        done
    } else {
        done.push(rest)
    }
}

/// What one input line becomes in the output: its escapes replaced, then one
/// newline.
pub open spec fn record(line: Seq<char>) -> Seq<char> {
    unescape(line).push('\n')
}

/// The record of each line of `ls`, in order.
pub open spec fn records(ls: Seq<Seq<char>>) -> Seq<Seq<char>> {
    ls.map_values(|l: Seq<char>| record(l))
}

/// The output for input text `c`: the records of its lines, one after another.
pub open spec fn converted(c: Seq<char>) -> Seq<char> {
    records(lines_of(c)).flatten()
}

/// Relies on `str::chars` collected into a `Vec`: the characters of `s`, in order.
#[verifier::external_body]
pub(crate) fn chars_of(s: &str) -> (r: Vec<char>)
    ensures
        r@ == s@,
{
    s.chars().collect()
}

/// Relies on `String`'s `FromIterator<&char>`: the string made of `cs`, in order.
#[verifier::external_body]
pub(crate) fn string_of(cs: &Vec<char>) -> (r: String)
    ensures
        r@ == cs@,
{
    cs.iter().collect()
}

proof fn lemma_unescape_step(s: Seq<char>, i: int)
    requires
        0 <= i < s.len(),
    ensures
        s.len() - i >= 2 && s[i] == '\\' && s[i + 1] == 'n' ==> unescape(
            s.subrange(i, s.len() as int),
        ) == seq!['\n'] + unescape(s.subrange(i + 2, s.len() as int)),
        !(s.len() - i >= 2 && s[i] == '\\' && s[i + 1] == 'n') ==> unescape(
            s.subrange(i, s.len() as int),
        ) == seq![s[i]] + unescape(s.subrange(i + 1, s.len() as int)),
{
    let t = s.subrange(i, s.len() as int);
    if t.len() >= 2 {
        assert(t.subrange(2, t.len() as int) =~= s.subrange(i + 2, s.len() as int));
    }
    assert(t.subrange(1, t.len() as int) =~= s.subrange(i + 1, s.len() as int));
}

/// The characters of `cs` with each backslash-`n` pair replaced by a newline.
fn unescape_chars(cs: &Vec<char>) -> (r: Vec<char>)
    ensures
        r@ == unescape(cs@),
{
    let n = cs.len();
    let mut out: Vec<char> = Vec::new();
    let mut i: usize = 0;
    assert(cs@.subrange(0, n as int) =~= cs@);
    while i < n
        invariant
            n == cs.len(),
            i <= n,
            out@ + unescape(cs@.subrange(i as int, n as int)) == unescape(cs@),
        decreases n - i,
    {
        proof {
            lemma_unescape_step(cs@, i as int);
        }
        if i + 1 < n && cs[i] == '\\' && cs[i + 1] == 'n' {
            proof {
                assert(out@.push('\n') + unescape(cs@.subrange(i + 2, n as int)) =~= out@ + (
                seq!['\n'] + unescape(cs@.subrange(i + 2, n as int))));
            }
            out.push('\n');
            i = i + 2;
        } else {
            proof {
                assert(out@.push(cs@[i as int]) + unescape(cs@.subrange(i + 1, n as int))
                    =~= out@ + (seq![cs@[i as int]] + unescape(cs@.subrange(i + 1, n as int))));
            }
            out.push(cs[i]);
            i = i + 1;
        }
    }
    assert(cs@.subrange(n as int, n as int) =~= Seq::<char>::empty());
    assert(out@ + Seq::<char>::empty() =~= out@);
    out
}

/// Replaces every literal backslash-`n` pair in `line` with a newline
/// character. Other backslashes are left as they are.
pub fn replace_escapes(line: &str) -> (r: String)
    ensures
        r@ == unescape(line@),
{
    let cs = chars_of(line);
    let u = unescape_chars(&cs);
    string_of(&u)
}

/// The lines of `cs` as character vectors, as `lines_of` gives them.
fn split_line_chars(cs: &Vec<char>) -> (r: Vec<Vec<char>>)
    ensures
        r.len() == lines_of(cs@).len(),
        forall|j: int| 0 <= j < r.len() ==> (#[trigger] r[j])@ == lines_of(cs@)[j],
{
    let n = cs.len();
    let mut done: Vec<Vec<char>> = Vec::new();
    let mut cur: Vec<char> = Vec::new();
    let mut i: usize = 0;
    while i < n
        invariant
            n == cs.len(),
            i <= n,
            scan(cs@.subrange(0, i as int)).0.len() == done.len(),
            forall|j: int|
                0 <= j < done.len() ==> (#[trigger] done[j])@ == scan(
                    cs@.subrange(0, i as int),
                ).0[j],
            scan(cs@.subrange(0, i as int)).1 == cur@,
        decreases n - i,
    {
        let ghost before = cs@.subrange(0, i as int);
        assert(cs@.subrange(0, i + 1).drop_last() =~= before);
        assert(cs@.subrange(0, i + 1).last() == cs@[i as int]);
        if cs[i] == '\n' {
            let line = cur;
            done.push(line);
            cur = Vec::new();
        } else {
            cur.push(cs[i]);
        }
        i = i + 1;
    }
    assert(cs@.subrange(0, n as int) =~= cs@);
    if cur.len() > 0 {
        done.push(cur);
    }
    done
}

/// Splits `content` into its lines, with the newline as the only separator:
/// each newline ends a line, and text after the last newline is one more
/// line; a final newline adds no empty line.
pub fn split_lines(content: &str) -> (r: Vec<String>)
    ensures
        r.len() == lines_of(content@).len(),
        forall|j: int| 0 <= j < r.len() ==> (#[trigger] r[j])@ == lines_of(content@)[j],
{
    let cs = chars_of(content);
    let parts = split_line_chars(&cs);
    let mut r: Vec<String> = Vec::new();
    let mut j: usize = 0;
    while j < parts.len()
        invariant
            j <= parts.len(),
            parts.len() == lines_of(cs@).len(),
            forall|k: int| 0 <= k < parts.len() ==> (#[trigger] parts[k])@ == lines_of(cs@)[k],
            r.len() == j,
            forall|k: int| 0 <= k < j ==> (#[trigger] r[k])@ == lines_of(cs@)[k],
        decreases parts.len() - j,
    {
        let line = string_of(&parts[j]);
        r.push(line);
        j = j + 1;
    }
    r
}

/// The whole output for input text `content`: for each of its lines, in
/// order, the line with each backslash-`n` pair replaced by a newline, then
/// one newline.
pub fn convert_content(content: &str) -> (r: String)
    ensures
        r@ == converted(content@),
{
    let cs = chars_of(content);
    let lines = split_line_chars(&cs);
    let ghost ls = lines_of(cs@);
    let mut out: Vec<char> = Vec::new();
    let mut j: usize = 0;
    assert(records(ls.subrange(0, 0)) =~= Seq::<Seq<char>>::empty());
    while j < lines.len()
        invariant
            j <= lines.len(),
            lines.len() == ls.len(),
            forall|k: int| 0 <= k < lines.len() ==> (#[trigger] lines[k])@ == ls[k],
            out@ == records(ls.subrange(0, j as int)).flatten(),
        decreases lines.len() - j,
    {
        let mut u = unescape_chars(&lines[j]);
        u.push('\n');
        proof {
            assert(records(ls.subrange(0, j + 1)) =~= records(ls.subrange(0, j as int)).push(
                record(ls[j as int]),
            ));
            records(ls.subrange(0, j as int)).lemma_flatten_push(record(ls[j as int]));
        }
        out.append(&mut u);
        j = j + 1;
    }
    assert(ls.subrange(0, ls.len() as int) =~= ls);
    string_of(&out)
}

/// A line without any backslash-`n` pair is copied through unchanged: its
/// record is the line itself followed by one newline.
pub proof fn lemma_no_escape_copied(line: Seq<char>)
    requires
        !has_escape(line),
    ensures
        unescape(line) == line,
        record(line) == line.push('\n'),
    decreases line.len(),
{
    if line.len() > 0 {
        let tail = line.subrange(1, line.len() as int);
        if line.len() >= 2 && line[0] == '\\' && line[1] == 'n' {
            assert(line[0int + 1] == 'n');
        }
        assert(!has_escape(tail)) by {
            if has_escape(tail) {
                let i = choose|i: int|
                    0 <= i && i + 1 < tail.len() && tail[i] == '\\' && #[trigger] tail[i + 1]
                        == 'n';
                assert(line[(i + 1) + 1] == 'n');
            }
        };
        lemma_no_escape_copied(tail);
        assert(seq![line[0]] + tail =~= line);
    } else {
        assert(unescape(line) =~= line);
    }
}

/// Each input line has its own segment in the output, in input order: the
/// records of the lines before line `i` come first, then the record of line
/// `i`, which is that line with each backslash-`n` pair replaced by a newline
/// and one newline after it.
pub proof fn lemma_output_segments(c: Seq<char>, i: int)
    requires
        0 <= i < lines_of(c).len(),
    ensures
        ({
            let ls = lines_of(c);
            let start = records(ls.take(i)).flatten().len() as int;
            &&& converted(c).subrange(start, start + record(ls[i]).len()) == record(ls[i])
            &&& record(ls[i]) == unescape(ls[i]).push('\n')
        }),
{
    let ls = lines_of(c);
    let before = records(ls.take(i));
    let after = records(ls.skip(i));
    assert(records(ls) =~= before + after);
    lemma_flatten_concat(before, after);
    assert(after.first() == record(ls[i]));
    assert(after.flatten() == after.first() + after.drop_first().flatten());
    let start = before.flatten().len() as int;
    assert(converted(c) == before.flatten() + (record(ls[i]) + after.drop_first().flatten()));
    assert(converted(c).subrange(start, start + record(ls[i]).len()) =~= record(ls[i]));
}

/// The number of newline characters in `s`.
pub open spec fn newline_count(s: Seq<char>) -> nat
    decreases s.len(),
{
    if s.len() == 0 {
        0
    } else {
        newline_count(s.drop_last()) + if s.last() == '\n' {
            1nat
        } else {
            0nat
        }
    }
}

/// The number of backslash-`n` pairs that `unescape` replaces in `s`.
pub open spec fn escape_count(s: Seq<char>) -> nat
    decreases s.len(),
{
    if s.len() == 0 {
        0
    } else if s.len() >= 2 && s[0] == '\\' && s[1] == 'n' {
        1 + escape_count(s.subrange(2, s.len() as int))
    } else {
        escape_count(s.subrange(1, s.len() as int))
    }
}

/// The backslash-`n` pairs of all lines of `ls` together.
pub open spec fn escape_total(ls: Seq<Seq<char>>) -> nat
    decreases ls.len(),
{
    if ls.len() == 0 {
        0
    } else {
        escape_total(ls.drop_last()) + escape_count(ls.last())
    }
}

proof fn lemma_newline_count_add(a: Seq<char>, b: Seq<char>)
    ensures
        newline_count(a + b) == newline_count(a) + newline_count(b),
    decreases b.len(),
{
    if b.len() == 0 {
        assert(a + b =~= a);
    } else {
        assert((a + b).drop_last() =~= a + b.drop_last());
        lemma_newline_count_add(a, b.drop_last());
    }
}

proof fn lemma_newline_count_single(x: char)
    ensures
        newline_count(seq![x]) == if x == '\n' {
            1nat
        } else {
            0nat
        },
{
    assert(seq![x].drop_last() =~= Seq::<char>::empty());
    assert(newline_count(Seq::<char>::empty()) == 0);
    assert(seq![x].last() == x);
}

proof fn lemma_scan_no_newline(s: Seq<char>)
    ensures
        newline_count(scan(s).1) == 0,
        forall|j: int| 0 <= j < scan(s).0.len() ==> newline_count(#[trigger] scan(s).0[j]) == 0,
    decreases s.len(),
{
    if s.len() > 0 {
        lemma_scan_no_newline(s.drop_last());
        let prev = scan(s.drop_last());
        if s.last() != '\n' {
            assert(prev.1.push(s.last()).drop_last() =~= prev.1);
        } else {
            assert forall|j: int| 0 <= j < scan(s).0.len() implies newline_count(
                #[trigger] scan(s).0[j],
            ) == 0 by {
                if j < prev.0.len() {
                    assert(scan(s).0[j] == prev.0[j]);
                }
            };
        }
    }
}

proof fn lemma_unescape_newlines(s: Seq<char>)
    ensures
        newline_count(unescape(s)) == newline_count(s) + escape_count(s),
    decreases s.len(),
{
    if s.len() > 0 {
        if s.len() >= 2 && s[0] == '\\' && s[1] == 'n' {
            let rest = s.subrange(2, s.len() as int);
            lemma_unescape_newlines(rest);
            lemma_newline_count_add(seq!['\n'], unescape(rest));
            lemma_newline_count_single('\n');
            assert(s =~= seq!['\\'] + seq!['n'] + rest);
            lemma_newline_count_add(seq!['\\'] + seq!['n'], rest);
            lemma_newline_count_add(seq!['\\'], seq!['n']);
            lemma_newline_count_single('\\');
            lemma_newline_count_single('n');
        } else {
            let rest = s.subrange(1, s.len() as int);
            lemma_unescape_newlines(rest);
            lemma_newline_count_add(seq![s[0]], unescape(rest));
            assert(s =~= seq![s[0]] + rest);
            lemma_newline_count_add(seq![s[0]], rest);
        }
    }
}

proof fn lemma_records_newlines(ls: Seq<Seq<char>>)
    requires
        forall|j: int| 0 <= j < ls.len() ==> newline_count(#[trigger] ls[j]) == 0,
    ensures
        newline_count(records(ls).flatten()) == ls.len() + escape_total(ls),
        records(ls).flatten().len() == 0 || records(ls).flatten().last() == '\n',
    decreases ls.len(),
{
    if ls.len() == 0 {
        assert(records(ls).flatten() =~= Seq::<char>::empty());
    } else {
        let init = ls.drop_last();
        let l = ls.last();
        assert forall|j: int| 0 <= j < init.len() implies newline_count(#[trigger] init[j])
            == 0 by {
            assert(init[j] == ls[j]);
        };
        lemma_records_newlines(init);
        assert(records(ls) =~= records(init).push(record(l)));
        records(init).lemma_flatten_push(record(l));
        lemma_newline_count_add(records(init).flatten(), record(l));
        assert(ls[ls.len() - 1] == l);
        lemma_unescape_newlines(l);
        assert(unescape(l).push('\n').drop_last() =~= unescape(l));
    }
}

/// The output holds one newline for each input line plus one for each
/// backslash-`n` pair in those lines, and it is empty or ends in a newline.
pub proof fn lemma_output_newlines(c: Seq<char>)
    ensures
        newline_count(converted(c)) == lines_of(c).len() + escape_total(lines_of(c)),
        converted(c).len() == 0 || converted(c).last() == '\n',
{
    lemma_scan_no_newline(c);
    let (done, rest) = scan(c);
    let ls = lines_of(c);
    assert forall|j: int| 0 <= j < ls.len() implies newline_count(#[trigger] ls[j]) == 0 by {
        if j < done.len() {
            assert(ls[j] == done[j]);
        }
    };
    lemma_records_newlines(ls);
}

/// Unescaping two texts one after the other is unescaping each, unless a
/// backslash at the end of the first meets an `n` at the start of the second.
proof fn lemma_unescape_concat(a: Seq<char>, b: Seq<char>)
    requires
        a.len() == 0 || b.len() == 0 || a.last() != '\\' || b[0] != 'n',
    ensures
        unescape(a + b) == unescape(a) + unescape(b),
    decreases a.len(),
{
    if a.len() == 0 {
        assert(a + b =~= b);
        assert(unescape(a) + unescape(b) =~= unescape(b));
    } else if a.len() == 1 {
        assert((a + b).subrange(1, (a + b).len() as int) =~= b);
        assert(a.subrange(1, 1) =~= Seq::<char>::empty());
        assert(unescape(Seq::<char>::empty()) == Seq::<char>::empty());
        assert(unescape(a) =~= seq![a[0]]);
        if b.len() > 0 {
            assert(a.last() == a[0]);
            assert((a + b)[1] == b[0]);
        }
        assert((a + b)[0] == a[0]);
        assert(seq![a[0]] + unescape(b) =~= unescape(a) + unescape(b));
    } else if a[0] == '\\' && a[1] == 'n' {
        let ra = a.subrange(2, a.len() as int);
        if ra.len() > 0 {
            assert(ra.last() == a.last());
        }
        lemma_unescape_concat(ra, b);
        assert((a + b).subrange(2, (a + b).len() as int) =~= ra + b);
        assert((a + b)[0] == a[0] && (a + b)[1] == a[1]);
        assert(seq!['\n'] + (unescape(ra) + unescape(b)) =~= (seq!['\n'] + unescape(ra))
            + unescape(b));
    } else {
        let ra = a.subrange(1, a.len() as int);
        assert(ra.last() == a.last());
        lemma_unescape_concat(ra, b);
        assert((a + b).subrange(1, (a + b).len() as int) =~= ra + b);
        assert((a + b)[0] == a[0] && (a + b)[1] == a[1]);
        assert(seq![a[0]] + (unescape(ra) + unescape(b)) =~= (seq![a[0]] + unescape(ra))
            + unescape(b));
    }
}

/// What `scan` has read so far: the completed lines are the text up to the
/// last newline, and their records are that text unescaped.
proof fn lemma_scan_unescape(s: Seq<char>)
    ensures
        ({
            let (done, rest) = scan(s);
            let head = s.take(s.len() - rest.len());
            &&& rest.len() <= s.len()
            &&& s == head + rest
            &&& head.len() == 0 || head.last() == '\n'
            &&& records(done).flatten() == unescape(head)
        }),
    decreases s.len(),
{
    if s.len() == 0 {
        assert(records(Seq::<Seq<char>>::empty()) =~= Seq::<Seq<char>>::empty());
        assert(s.take(0) =~= Seq::<char>::empty());
    } else {
        let init = s.drop_last();
        lemma_scan_unescape(init);
        let (done, rest) = scan(init);
        let head = init.take(init.len() - rest.len());
        if s.last() == '\n' {
            assert(s.take(s.len() as int) =~= s);
            assert(records(done.push(rest)) =~= records(done).push(record(rest)));
            records(done).lemma_flatten_push(record(rest));
            lemma_unescape_concat(rest, seq!['\n']);
            assert(unescape(seq!['\n']) =~= seq!['\n']) by {
                assert(seq!['\n'].subrange(1, 1) =~= Seq::<char>::empty());
                assert(unescape(Seq::<char>::empty()) == Seq::<char>::empty());
            };
            lemma_unescape_concat(head, rest + seq!['\n']);
            assert(s =~= head + (rest + seq!['\n']));
            assert(unescape(rest).push('\n') =~= unescape(rest) + seq!['\n']);
        } else {
            assert(s =~= init.push(s.last()));
            assert(s.take(s.len() - (rest.len() + 1)) =~= head);
            assert(s =~= head + rest.push(s.last()));
        }
    }
}

/// The output is the whole input unescaped, with one more newline when the
/// input does not already end in one.
proof fn lemma_converted_is_unescape(c: Seq<char>)
    ensures
        c.len() == 0 || c.last() == '\n' ==> converted(c) == unescape(c),
        c.len() > 0 && c.last() != '\n' ==> converted(c) == unescape(c).push('\n'),
{
    lemma_scan_unescape(c);
    let (done, rest) = scan(c);
    let head = c.take(c.len() - rest.len());
    if rest.len() == 0 {
        assert(head + rest =~= head);
    } else {
        assert(c.last() == rest.last());
        assert(rest.last() != '\n') by {
            lemma_scan_no_newline(c);
            assert(rest =~= rest.drop_last().push(rest.last()));
        };
        assert(records(done.push(rest)) =~= records(done).push(record(rest)));
        records(done).lemma_flatten_push(record(rest));
        lemma_unescape_concat(head, rest);
        assert(unescape(head) + unescape(rest).push('\n') =~= (unescape(head) + unescape(rest)).push(
            '\n',
        ));
    }
}

proof fn lemma_unescape_no_escape(s: Seq<char>)
    ensures
        !has_escape(unescape(s)),
    decreases s.len(),
{
    if s.len() > 0 {
        let paired = s.len() >= 2 && s[0] == '\\' && s[1] == 'n';
        let rest = if paired {
            s.subrange(2, s.len() as int)
        } else {
            s.subrange(1, s.len() as int)
        };
        let y = if paired {
            '\n'
        } else {
            s[0]
        };
        let t = unescape(rest);
        lemma_unescape_no_escape(rest);
        assert(unescape(s) == seq![y] + t);
        if y == '\\' && t.len() > 0 {
            let rest_paired = rest.len() >= 2 && rest[0] == '\\' && rest[1] == 'n';
            if rest_paired {
                assert(t == seq!['\n'] + unescape(rest.subrange(2, rest.len() as int)));
            } else {
                assert(t == seq![rest[0]] + unescape(rest.subrange(1, rest.len() as int)));
                assert(rest[0] == s[1]);
            }
            assert(t[0] != 'n');
        }
        let u = seq![y] + t;
        if has_escape(u) {
            let i = choose|i: int| 0 <= i && i + 1 < u.len() && u[i] == '\\' && #[trigger] u[i + 1]
                == 'n';
            if i > 0 {
                assert(t[(i - 1) + 1] == 'n');
            }
        }
    }
}

/// Converting text that was already converted changes nothing.
pub proof fn lemma_convert_idempotent(c: Seq<char>)
    ensures
        converted(converted(c)) == converted(c),
{
    let x = converted(c);
    lemma_converted_is_unescape(c);
    lemma_output_newlines(c);
    lemma_unescape_no_escape(c);
    if c.len() > 0 && c.last() != '\n' {
        let u = unescape(c);
        if has_escape(x) {
            let i = choose|i: int| 0 <= i && i + 1 < x.len() && x[i] == '\\' && #[trigger] x[i + 1]
                == 'n';
            assert(u[i + 1] == 'n');
        }
    }
    lemma_converted_is_unescape(x);
    lemma_no_escape_copied(x);
}

} // verus!
