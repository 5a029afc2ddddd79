//! Where the output goes: an explicit path, or one derived from the input path
//! by adding " - copy" to the file stem.
use vstd::prelude::*;
use crate::text::{chars_of, string_of};

verus! {

/// What a run is asked to do: the input file and, optionally, where to write.
pub struct Args {
    pub in_file: String,
    pub out_file: Option<String>,
}

/// Index of the last `c` in `s`, or `-1` when there is none.
pub open spec fn last_pos(s: Seq<char>, c: char) -> int
    decreases s.len(),
{
    if s.len() == 0 {
        -1
    } else if s.last() == c {
        s.len() - 1
    } else {
        last_pos(s.drop_last(), c)
    }
}

proof fn lemma_last_pos_bounds(s: Seq<char>, c: char)
    ensures
        -1 <= last_pos(s, c) < s.len(),
    decreases s.len(),
{
    if s.len() > 0 {
        lemma_last_pos_bounds(s.drop_last(), c);
    }
}

/// Everything up to and including the last `/` of path `p`.
pub open spec fn parent_part(p: Seq<char>) -> Seq<char> {
    p.take(last_pos(p, '/') + 1)
}

/// The final component of path `p`: everything after its last `/`.
pub open spec fn file_name(p: Seq<char>) -> Seq<char> {
    p.skip(last_pos(p, '/') + 1)
}

/// The final component of `p` names a file: it is neither empty nor `.` nor `..`.
pub open spec fn has_file_name(p: Seq<char>) -> bool {
    let n = file_name(p);
    n.len() > 0 && n != seq!['.'] && n != seq!['.', '.']
}

/// A file name without its extension. The extension starts after the last
/// dot; a dot in first place does not start one.
pub open spec fn stem(name: Seq<char>) -> Seq<char> {
    let d = last_pos(name, '.');
    if d > 0 {
        name.take(d)
    } else {
        name
    }
}

/// The extension of a file name, empty when it has none.
pub open spec fn extension(name: Seq<char>) -> Seq<char> {
    let d = last_pos(name, '.');
    if d > 0 {
        name.skip(d + 1)
    } else {
        Seq::empty()
    }
}

/// The name of the copy: stem, then " - copy", then the extension again if
/// there is one.
pub open spec fn copy_name(name: Seq<char>) -> Seq<char> {
    let e = extension(name);
    if e.len() > 0 {
        stem(name) + " - copy"@ + seq!['.'] + e
    } else {
        stem(name) + " - copy"@
    }
}

/// The output path derived from input path `p`, in the same directory; none
/// when `p` does not end in a file name.
pub open spec fn derived_out_path(p: Seq<char>) -> Option<Seq<char>> {
    if has_file_name(p) {
        Some(parent_part(p) + copy_name(file_name(p)))
    } else {
        None
    }
}

/// One past the index of the last `c` in `cs`; `0` when there is none.
fn last_index(cs: &Vec<char>, c: char) -> (r: usize)
    ensures
        r as int == last_pos(cs@, c) + 1,
        r <= cs.len(),
{
    proof {
        lemma_last_pos_bounds(cs@, c);
    }
    let mut i: usize = cs.len();
    assert(cs@.take(i as int) =~= cs@);
    while i > 0
        invariant
            i <= cs.len(),
            last_pos(cs@, c) == last_pos(cs@.take(i as int), c),
        decreases i,
    {
        assert(cs@.take(i as int).drop_last() =~= cs@.take(i - 1));
        if cs[i - 1] == c {
            return i;
        }
        i = i - 1;
    }
    0
}

/// Appends `src[from..to]` to `out`.
fn push_range(out: &mut Vec<char>, src: &Vec<char>, from: usize, to: usize)
    requires
        from <= to <= src.len(),
    ensures
        final(out)@ == old(out)@ + src@.subrange(from as int, to as int),
{
    let mut i: usize = from;
    while i < to
        invariant
            from <= i <= to <= src.len(),
            out@ == old(out)@ + src@.subrange(from as int, i as int),
        decreases to - i,
    {
        out.push(src[i]);
        i = i + 1;
        assert(out@ =~= old(out)@ + src@.subrange(from as int, i as int));
    }
}

/// The output path derived from `in_file`: in the same directory, the file
/// stem with " - copy" added and the original extension, if any, put back
/// (`a/b/notes.txt` gives `a/b/notes - copy.txt`, `a/b/README` gives
/// `a/b/README - copy`). `None` when the path ends in `/`, `.` or `..`, so no
/// file name can be derived from it.
pub fn derive_out_path(in_file: &str) -> (r: Option<String>)
    ensures
        r is Some <==> derived_out_path(in_file@) is Some,
        r is Some ==> r->0@ == derived_out_path(in_file@)->0,
{
    let cs = chars_of(in_file);
    let n = cs.len();
    let k = last_index(&cs, '/');
    let mut name: Vec<char> = Vec::new();
    push_range(&mut name, &cs, k, n);
    assert(name@ =~= file_name(cs@));
    let m = name.len();
    if m == 0 || (m == 1 && name[0] == '.') || (m == 2 && name[0] == '.' && name[1] == '.') {
        proof {
            if m == 1 {
                assert(name@ =~= seq!['.']);
            }
            if m == 2 {
                assert(name@ =~= seq!['.', '.']);
            }
        }
        return None;
    }
    proof {
        if name@ == seq!['.'] {
            assert(name@[0] == '.');
        }
        if name@ == seq!['.', '.'] {
            assert(name@[0] == '.' && name@[1] == '.');
        }
    }
    let d = last_index(&name, '.');
    let mut out: Vec<char> = Vec::new();
    push_range(&mut out, &cs, 0, k);
    if d > 1 {
        push_range(&mut out, &name, 0, d - 1);
    } else {
        push_range(&mut out, &name, 0, m);
    }
    let suffix = chars_of(" - copy");
    push_range(&mut out, &suffix, 0, suffix.len());
    if d > 1 && d < m {
        out.push('.');
        push_range(&mut out, &name, d, m);
    }
    proof {
        assert(cs@.subrange(0, k as int) =~= parent_part(cs@));
        assert(suffix@.subrange(0, suffix.len() as int) =~= " - copy"@);
        assert(name@.subrange(0, m as int) =~= name@);
        if d > 1 {
            assert(name@.subrange(0, d - 1) =~= stem(name@));
            assert(name@.subrange(d as int, m as int) =~= extension(name@));
        } else {
            assert(extension(name@) =~= Seq::<char>::empty());
        }
        assert(out@ =~= parent_part(cs@) + copy_name(name@));
    }
    Some(string_of(&out))
}

/// The effective output path: the explicit one when `args` holds one,
/// otherwise the one derived from the input path.
pub fn out_path(args: &Args) -> (r: Option<String>)
    ensures
        args.out_file is Some ==> r is Some && r->0@ == args.out_file->0@,
        args.out_file is None ==> (r is Some <==> derived_out_path(args.in_file@) is Some),
        args.out_file is None && r is Some ==> r->0@ == derived_out_path(args.in_file@)->0,
{
    match &args.out_file {
        Some(name) => Some(name.clone()),
        None => derive_out_path(args.in_file.as_str()),
    }
}

} // verus!
