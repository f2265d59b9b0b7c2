use vstd::prelude::*;

verus! {

/// Compares two string slices by their character sequences.
pub fn str_eq(a: &str, b: &str) -> (r: bool)
    ensures
        r == (a@ == b@),
{
    let la = a.unicode_len();
    let lb = b.unicode_len();
    if la != lb {
        return false;
    }
    let mut i: usize = 0;
    while i < la
        invariant
            la == a@.len(),
            la == b@.len(),
            i <= la,
            forall|j: int| 0 <= j < i ==> a@[j] == b@[j],
        decreases la - i,
    {
        if a.get_char(i) != b.get_char(i) {
            return false;
        }
        i = i + 1;
    }
    proof {
        assert(a@ =~= b@);
    }
    true
}

/// Whether `s` ends with the suffix `suf`, by characters.
pub fn str_ends_with(s: &str, suf: &str) -> (r: bool)
    ensures
        r == (s@.len() >= suf@.len() && s@.skip(s@.len() - suf@.len()) == suf@),
{
    let ls = s.unicode_len();
    let lf = suf.unicode_len();
    if lf > ls {
        return false;
    }
    let tail = s.substring_char(ls - lf, ls);
    proof {
        assert(s@.subrange(s@.len() - suf@.len(), s@.len() as int) =~= s@.skip(
            s@.len() - suf@.len(),
        ));
    }
    str_eq(tail, suf)
}

/// The position of the last occurrence of `c` in `s`, or -1.
pub open spec fn last_index_of_char(s: Seq<char>, c: char) -> int
    decreases s.len(),
{
    if s.len() == 0 {
        -1
    } else if s.last() == c {
        s.len() - 1
    } else {
        last_index_of_char(s.drop_last(), c)
    }
}

/// The base name of a path: what follows its last slash.
pub open spec fn spec_basename(p: Seq<char>) -> Seq<char> {
    p.skip(last_index_of_char(p, '/') + 1)
}

/// A file name without its extension: what precedes the last dot, or the
/// whole name when it has none.
pub open spec fn spec_stem(name: Seq<char>) -> Seq<char> {
    if last_index_of_char(name, '.') == -1 {
        name
    } else {
        name.take(last_index_of_char(name, '.'))
    }
}

/// The last occurrence of `c` stays within the sequence.
proof fn lemma_last_index_range(s: Seq<char>, c: char)
    ensures
        -1 <= last_index_of_char(s, c) < s.len(),
    decreases s.len(),
{
    if s.len() > 0 && s.last() != c {
        lemma_last_index_range(s.drop_last(), c);
    }
}

/// Finds the last occurrence of `c` in `text`, if any.
fn find_last(text: &str, c: char, len: usize) -> (r: Option<usize>)
    requires
        len == text@.len(),
    ensures
        match r {
            Some(i) => i < len && i as int == last_index_of_char(text@, c),
            None => last_index_of_char(text@, c) == -1,
        },
{
    let ghost s = text@;
    let mut found: Option<usize> = None;
    let mut i: usize = 0;
    while i < len
        invariant
            len == s.len(),
            s == text@,
            i <= len,
            match found {
                Some(f) => f < i && f as int == last_index_of_char(s.take(i as int), c),
                None => last_index_of_char(s.take(i as int), c) == -1,
            },
        decreases len - i,
    {
        proof {
            assert(s.take(i + 1).drop_last() =~= s.take(i as int));
            assert(s.take(i + 1).last() == s[i as int]);
        }
        if text.get_char(i) == c {
            found = Some(i);
        }
        i = i + 1;
    }
    proof {
        assert(s.take(len as int) =~= s);
    }
    found
}

/// The locale identifier a resource file path selects: the file's base
/// name without its extension.
pub fn stem_of(path: &str) -> (r: String)
    ensures
        r@ == spec_stem(spec_basename(path@)),
{
    let ghost p = path@;
    let len = path.unicode_len();
    let base_start: usize = match find_last(path, '/', len) {
        Some(i) => i + 1,
        None => 0,
    };
    let base = path.substring_char(base_start, len);
    proof {
        lemma_last_index_range(p, '/');
        assert(base@ =~= spec_basename(p));
    }
    let blen = base.unicode_len();
    match find_last(base, '.', blen) {
        Some(d) => {
            let r = String::from_str(base.substring_char(0, d));
            proof {
                assert(base@.subrange(0, d as int) =~= base@.take(d as int));
            }
            r
        },
        None => String::from_str(base),
    }
}

} // verus!
