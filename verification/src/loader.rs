use vstd::prelude::*;

use crate::message::{explicit_spans_from, Message};
use crate::ordmap::OrdMap;
use crate::resource::MessageSet;
use crate::result::I18nError;
use crate::strutil::str_ends_with;

verus! {

/// A raw resource value, as an outside parser hands it over: a scalar
/// string, a list, a mapping in file order, or a value of any other kind.
pub enum RawValue {
    Str(String),
    List(Vec<RawValue>),
    Mapping(Vec<(String, RawValue)>),
    Other,
}

/// How a resource file will be read, judged by its extension.
#[derive(Clone, Copy, PartialEq, Eq, Structural, Debug)]
pub enum FileKind {
    Yaml,
    Json,
    Unsupported,
}

/// Whether `s` ends in `suf`.
pub open spec fn has_suffix(s: Seq<char>, suf: Seq<char>) -> bool {
    s.len() >= suf.len() && s.skip(s.len() - suf.len()) == suf
}

/// The file kind a path's extension selects.
pub open spec fn spec_file_kind(p: Seq<char>) -> FileKind {
    if has_suffix(p, seq!['.', 'y', 'a', 'm', 'l']) || has_suffix(p, seq!['.', 'y', 'm', 'l']) {
        FileKind::Yaml
    } else if has_suffix(p, seq!['.', 'j', 's', 'o', 'n']) {
        FileKind::Json
    } else {
        FileKind::Unsupported
    }
}

/// Classifies a resource file path by its extension.
pub fn file_kind(path: &str) -> (k: FileKind)
    ensures
        k == spec_file_kind(path@),
{
    proof {
        reveal_strlit(".yaml");
        reveal_strlit(".yml");
        reveal_strlit(".json");
        assert(".yaml"@ =~= seq!['.', 'y', 'a', 'm', 'l']);
        assert(".yml"@ =~= seq!['.', 'y', 'm', 'l']);
        assert(".json"@ =~= seq!['.', 'j', 's', 'o', 'n']);
    }
    if str_ends_with(path, ".yaml") || str_ends_with(path, ".yml") {
        FileKind::Yaml
    } else if str_ends_with(path, ".json") {
        FileKind::Json
    } else {
        FileKind::Unsupported
    }
}

/// Whether the plural separator — space, pipe, space — stands at position
/// `i` of `s`.
pub open spec fn sep_at(s: Seq<char>, i: int) -> bool {
    &&& 0 <= i
    &&& i + 3 <= s.len()
    &&& s[i] == ' '
    &&& s[i + 1] == '|'
    &&& s[i + 2] == ' '
}

/// The pieces of `s` cut at every plural separator at or after position
/// `i`, the current piece having started at `start`: the scan takes the
/// leftmost separator and resumes right after it.
pub open spec fn split_pieces(s: Seq<char>, i: int, start: int) -> Seq<Seq<char>>
    decreases s.len() - i,
{
    if i < 0 || i + 3 > s.len() {
        seq![s.subrange(if 0 <= start <= s.len() { start } else { 0 }, s.len() as int)]
    } else if sep_at(s, i) {
        seq![s.subrange(if 0 <= start <= i { start } else { 0 }, i)] + split_pieces(s, i + 3, i + 3)
    } else {
        split_pieces(s, i + 1, start)
    }
}

/// The texts and placeholder spans of the plural variants embedded in one
/// scalar: the scalar is cut at every plural separator and each piece is
/// parsed in the explicit-index form.
pub open spec fn leaf_model(s: Seq<char>) -> Seq<(Seq<char>, Seq<(int, int, int)>)> {
    split_pieces(s, 0, 0).map_values(|p: Seq<char>| (p, explicit_spans_from(p, 0)))
}

/// A per-locale table: each dotted path, in insertion order, with its
/// message set.
pub type ResourceMap = OrdMap<MessageSet>;

/// The text and spans of one list element, which must be a scalar string.
pub open spec fn str_item_model(v: RawValue) -> (Seq<char>, Seq<(int, int, int)>) {
    match v {
        RawValue::Str(s) => (s@, explicit_spans_from(s@, 0)),
        _ => (Seq::empty(), Seq::empty()),
    }
}

/// The variants of an explicit plural list: each element parsed on its own,
/// without separator splitting.
pub open spec fn list_model(items: Seq<RawValue>) -> Seq<(Seq<char>, Seq<(int, int, int)>)> {
    items.map_values(|it: RawValue| str_item_model(it))
}

/// Whether every leaf under the entry list can be loaded: a scalar string,
/// a non-empty list of scalar strings, or a nested mapping of such leaves.
pub open spec fn entries_ok(entries: Seq<(String, RawValue)>) -> bool
    decreases entries,
{
    if entries.len() == 0 {
        true
    } else {
        let head_ok = match entries[0].1 {
            RawValue::Str(_) => true,
            RawValue::List(items) => items@.len() >= 1 && forall|i: int|
                0 <= i < items@.len() ==> (#[trigger] items@[i]) is Str,
            RawValue::Mapping(sub) => entries_ok(sub@),
            RawValue::Other => false,
        };
        head_ok && entries_ok(entries.drop_first())
    }
}

/// The dotted path of a child named `key` under `prefix`.
pub open spec fn child_path(prefix: Seq<char>, key: Seq<char>) -> Seq<char> {
    if prefix.len() == 0 {
        key
    } else {
        prefix + seq!['.'] + key
    }
}

/// Every leaf under the entry list, flattened in file order: a leaf
/// contributes its dotted path and variants, a nested mapping contributes
/// the flattening of its children under the longer prefix.
pub open spec fn flat_entries(entries: Seq<(String, RawValue)>, prefix: Seq<char>) -> Seq<
    (Seq<char>, Seq<(Seq<char>, Seq<(int, int, int)>)>),
>
    decreases entries,
{
    if entries.len() == 0 {
        Seq::empty()
    } else {
        let path = child_path(prefix, entries[0].0@);
        let head = match entries[0].1 {
            RawValue::Str(s) => seq![(path, leaf_model(s@))],
            RawValue::List(items) => seq![(path, list_model(items@))],
            RawValue::Mapping(sub) => flat_entries(sub@, path),
            RawValue::Other => Seq::empty(),
        };
        head + flat_entries(entries.drop_first(), prefix)
    }
}

/// A keyed entry list with `(k, v)` bound: an entry with key `k` keeps
/// its position and takes the value `v`; otherwise `(k, v)` goes to the end.
pub open spec fn model_insert<V>(acc: Seq<(Seq<char>, V)>, k: Seq<char>, v: V) -> Seq<
    (Seq<char>, V),
>
    decreases acc.len(),
{
    if acc.len() == 0 {
        seq![(k, v)]
    } else if acc[0].0 == k {
        seq![(k, v)] + acc.drop_first()
    } else {
        seq![acc[0]] + model_insert(acc.drop_first(), k, v)
    }
}

/// The entry list after binding every element of `l` in order, later
/// bindings of a key replacing earlier ones.
pub open spec fn model_fold<V>(acc: Seq<(Seq<char>, V)>, l: Seq<(Seq<char>, V)>) -> Seq<
    (Seq<char>, V),
>
    decreases l.len(),
{
    if l.len() == 0 {
        acc
    } else {
        model_fold(model_insert(acc, l[0].0, l[0].1), l.drop_first())
    }
}

/// A per-locale table with unique paths and well-formed message sets.
pub open spec fn rm_wf(m: ResourceMap) -> bool {
    &&& m.wf()
    &&& forall|i: int| 0 <= i < m.values().len() ==> (#[trigger] m.values()[i]).wf()
}

/// The entries of a per-locale table: each path with the texts and spans of
/// its variants, in table order.
pub open spec fn rm_model(m: ResourceMap) -> Seq<
    (Seq<char>, Seq<(Seq<char>, Seq<(int, int, int)>)>),
> {
    Seq::new(m.spec_len(), |i: int| (m.keys()[i], m.values()[i].model()))
}

/// Folding a concatenation folds the first part, then the second.
pub proof fn lemma_fold_append<V>(
    acc: Seq<(Seq<char>, V)>,
    a: Seq<(Seq<char>, V)>,
    b: Seq<(Seq<char>, V)>,
)
    ensures
        model_fold(acc, a + b) == model_fold(model_fold(acc, a), b),
    decreases a.len(),
{
    if a.len() == 0 {
        assert(a + b =~= b);
    } else {
        assert((a + b)[0] == a[0]);
        assert((a + b).drop_first() =~= a.drop_first() + b);
        lemma_fold_append(model_insert(acc, a[0].0, a[0].1), a.drop_first(), b);
    }
}

/// No two entries of `acc` share a key.
pub open spec fn model_keys_unique<V>(acc: Seq<(Seq<char>, V)>) -> bool {
    forall|i: int, j: int|
        0 <= i < j < acc.len() ==> (#[trigger] acc[i]).0 != (#[trigger] acc[j]).0
}

/// On an entry list with unique keys, binding `(k, v)` is an update in
/// place where `k` occurs, and an append where it does not.
pub proof fn lemma_model_insert_shape<V>(acc: Seq<(Seq<char>, V)>, k: Seq<char>, v: V)
    requires
        model_keys_unique(acc),
    ensures
        (forall|j: int| 0 <= j < acc.len() ==> (#[trigger] acc[j]).0 != k) ==> model_insert(
            acc,
            k,
            v,
        ) == acc.push((k, v)),
        forall|j: int|
            0 <= j < acc.len() && (#[trigger] acc[j]).0 == k ==> model_insert(acc, k, v)
                == acc.update(j, (k, v)),
    decreases acc.len(),
{
    if acc.len() == 0 {
        assert(model_insert(acc, k, v) =~= acc.push((k, v)));
    } else if acc[0].0 == k {
        assert(model_insert(acc, k, v) =~= acc.update(0, (k, v)));
        assert forall|j: int| 0 <= j < acc.len() && (#[trigger] acc[j]).0 == k implies model_insert(
            acc,
            k,
            v,
        ) == acc.update(j, (k, v)) by {
            if j != 0 {
                assert(acc[0].0 != acc[j].0);
            }
        }
    } else {
        lemma_model_insert_shape(acc.drop_first(), k, v);
        assert forall|i: int, j: int|
            0 <= i < j < acc.drop_first().len() implies (#[trigger] acc.drop_first()[i]).0 != (
        #[trigger] acc.drop_first()[j]).0 by {
            assert(acc.drop_first()[i] == acc[i + 1]);
            assert(acc.drop_first()[j] == acc[j + 1]);
        }
        if forall|j: int| 0 <= j < acc.len() ==> (#[trigger] acc[j]).0 != k {
            assert(forall|j: int|
                0 <= j < acc.drop_first().len() ==> (#[trigger] acc.drop_first()[j]).0 != k);
            assert(model_insert(acc.drop_first(), k, v) == acc.drop_first().push((k, v)));
            assert(model_insert(acc, k, v) =~= acc.push((k, v)));
        }
        assert forall|j: int| 0 <= j < acc.len() && (#[trigger] acc[j]).0 == k implies model_insert(
            acc,
            k,
            v,
        ) == acc.update(j, (k, v)) by {
            assert(j != 0);
            assert(acc.drop_first()[j - 1].0 == k);
            assert(model_insert(acc.drop_first(), k, v) == acc.drop_first().update(j - 1, (k, v)));
            assert(model_insert(acc, k, v) =~= acc.update(j, (k, v)));
        }
    }
}

/// Cuts `text` at every plural separator.
fn split_plural(text: &str) -> (pieces: Vec<String>)
    ensures
        pieces@.map_values(|p: String| p@) == split_pieces(text@, 0, 0),
        pieces@.len() >= 1,
{
    let ghost s = text@;
    let len = text.unicode_len();
    let mut pieces: Vec<String> = Vec::new();
    let mut start: usize = 0;
    let mut i: usize = 0;
    while len - i >= 3
        invariant
            len == s.len(),
            s == text@,
            start <= i <= len,
            split_pieces(s, 0, 0) == pieces@.map_values(|p: String| p@) + split_pieces(
                s,
                i as int,
                start as int,
            ),
        decreases len - i,
    {
        if text.get_char(i) == ' ' && text.get_char(i + 1) == '|' && text.get_char(i + 2) == ' ' {
            let piece = String::from_str(text.substring_char(start, i));
            proof {
                assert(sep_at(s, i as int));
                assert(split_pieces(s, i as int, start as int) == seq![
                    s.subrange(start as int, i as int),
                ] + split_pieces(s, i + 3, i + 3));
                assert((pieces@.push(piece)).map_values(|p: String| p@) =~= pieces@.map_values(
                    |p: String| p@,
                ) + seq![piece@]);
            }
            pieces.push(piece);
            i = i + 3;
            start = i;
        } else {
            proof {
                assert(!sep_at(s, i as int));
                assert(split_pieces(s, i as int, start as int) == split_pieces(
                    s,
                    i + 1,
                    start as int,
                ));
            }
            i = i + 1;
        }
    }
    let last = String::from_str(text.substring_char(start, len));
    proof {
        assert(split_pieces(s, i as int, start as int) == seq![s.subrange(start as int, len as int)]);
        assert((pieces@.push(last)).map_values(|p: String| p@) =~= pieces@.map_values(
            |p: String| p@,
        ) + seq![last@]);
        assert(split_pieces(s, 0, 0) =~= (pieces@.push(last)).map_values(|p: String| p@));
    }
    pieces.push(last);
    pieces
}

/// Whether `c` separates path segments: a directory separator or a dot.
pub open spec fn path_sep(c: char) -> bool {
    c == '/' || c == '.'
}

/// The segments of `s` cut at every separator at or after position `i`,
/// the current segment having started at `start`.
pub open spec fn path_segments_from(s: Seq<char>, i: int, start: int) -> Seq<Seq<char>>
    decreases s.len() - i,
{
    if i < 0 || i >= s.len() {
        seq![s.subrange(if 0 <= start <= s.len() { start } else { 0 }, s.len() as int)]
    } else if path_sep(s[i]) {
        seq![s.subrange(if 0 <= start <= i { start } else { 0 }, i)] + path_segments_from(
            s,
            i + 1,
            i + 1,
        )
    } else {
        path_segments_from(s, i + 1, start)
    }
}

/// A segment list with its first and last segments exchanged, which moves
/// the locale code to the front of a path that carries it last.
pub open spec fn locale_first(segs: Seq<Seq<char>>) -> Seq<Seq<char>> {
    if segs.len() <= 1 {
        segs
    } else {
        segs.update(0, segs.last()).update(segs.len() - 1, segs[0])
    }
}

/// The dotted-path segments a resource file's relative path encodes: the
/// path, stripped of its base directory and extension, cut at every
/// directory separator and dot, with the trailing locale code moved to the
/// front.
pub fn path_namespaces(rel: &str) -> (r: Vec<String>)
    ensures
        r@.map_values(|p: String| p@) == locale_first(path_segments_from(rel@, 0, 0)),
        r@.len() >= 1,
{
    let ghost s = rel@;
    let len = rel.unicode_len();
    let mut segs: Vec<String> = Vec::new();
    let mut start: usize = 0;
    let mut i: usize = 0;
    while i < len
        invariant
            len == s.len(),
            s == rel@,
            start <= i <= len,
            path_segments_from(s, 0, 0) == segs@.map_values(|p: String| p@)
                + path_segments_from(s, i as int, start as int),
        decreases len - i,
    {
        let c = rel.get_char(i);
        if c == '/' || c == '.' {
            let piece = String::from_str(rel.substring_char(start, i));
            proof {
                assert(path_sep(s[i as int]));
                assert(path_segments_from(s, i as int, start as int) == seq![
                    s.subrange(start as int, i as int),
                ] + path_segments_from(s, i + 1, i + 1));
                assert((segs@.push(piece)).map_values(|p: String| p@) =~= segs@.map_values(
                    |p: String| p@,
                ) + seq![piece@]);
            }
            segs.push(piece);
            i = i + 1;
            start = i;
        } else {
            proof {
                assert(!path_sep(s[i as int]));
                assert(path_segments_from(s, i as int, start as int) == path_segments_from(
                    s,
                    i + 1,
                    start as int,
                ));
            }
            i = i + 1;
        }
    }
    let last_piece = String::from_str(rel.substring_char(start, len));
    proof {
        assert(path_segments_from(s, i as int, start as int) == seq![
            s.subrange(start as int, len as int),
        ]);
        assert((segs@.push(last_piece)).map_values(|p: String| p@) =~= segs@.map_values(
            |p: String| p@,
        ) + seq![last_piece@]);
        assert(path_segments_from(s, 0, 0) =~= (segs@.push(last_piece)).map_values(
            |p: String| p@,
        ));
    }
    segs.push(last_piece);
    if segs.len() >= 2 {
        let ghost before = segs@;
        let tail = segs.remove(segs.len() - 1);
        let head = segs.remove(0);
        segs.insert(0, tail);
        segs.push(head);
        proof {
            assert(segs@ =~= before.update(0, before.last()).update(
                before.len() - 1,
                before[0],
            ));
            assert(segs@.map_values(|p: String| p@) =~= locale_first(
                before.map_values(|p: String| p@),
            ));
        }
    }
    segs
}

/// A table insert binds one path on the table's model.
proof fn lemma_rm_model_insert(pre: ResourceMap, post: ResourceMap, k: Seq<char>, v: MessageSet)
    requires
        pre.wf(),
        pre.contains_key(k) ==> post.keys() == pre.keys() && post.values() == pre.values().update(
            pre.key_index(k),
            v,
        ),
        !pre.contains_key(k) ==> post.keys() == pre.keys().push(k) && post.values()
            == pre.values().push(v),
    ensures
        rm_model(post) == model_insert(rm_model(pre), k, v.model()),
{
    assert(model_keys_unique(rm_model(pre)));
    lemma_model_insert_shape(rm_model(pre), k, v.model());
    if pre.contains_key(k) {
        let j = pre.key_index(k);
        assert(rm_model(pre)[j].0 == k);
        assert(rm_model(post) =~= rm_model(pre).update(j, (k, v.model())));
    } else {
        assert forall|j: int| 0 <= j < rm_model(pre).len() implies (#[trigger] rm_model(pre)[j]).0
            != k by {
            assert(pre.keys()[j] == rm_model(pre)[j].0);
        }
        assert forall|i: int| 0 <= i < rm_model(post).len() implies rm_model(post)[i] == rm_model(
            pre,
        ).push((k, v.model()))[i] by {
            assert(pre.keys().len() == rm_model(pre).len());
            assert(post.keys().len() == rm_model(post).len());
            if i < rm_model(pre).len() {
                assert(post.keys()[i] == pre.keys()[i]);
                assert(post.values()[i] == pre.values()[i]);
            } else {
                assert(i == pre.keys().len());
                assert(pre.keys().push(k)[pre.keys().len() as int] == k);
                assert(pre.values().push(v)[pre.values().len() as int] == v);
                assert(post.keys()[i] == k);
                assert(post.values()[i] == v);
            }
        }
        assert(rm_model(pre).len() == pre.keys().len());
        assert(rm_model(post).len() == post.keys().len());
        assert(rm_model(post).len() == rm_model(pre).push((k, v.model())).len());
        assert(rm_model(post) =~= rm_model(pre).push((k, v.model())));
    }
}

/// Flattens the entries of one mapping from position `idx` on into the
/// table `m`, under the dotted prefix `prefix`: leaves become message sets,
/// nested mappings recurse with the longer prefix, and a later binding of a
/// path replaces an earlier one.
#[verifier::loop_isolation(false)]
fn insert_entries(
    entries: &Vec<(String, RawValue)>,
    idx: usize,
    prefix: &str,
    m: &mut ResourceMap,
) -> (r: Result<(), I18nError>)
    requires
        rm_wf(*old(m)),
        idx <= entries@.len(),
    ensures
        rm_wf(*final(m)),
        match r {
            Ok(()) => entries_ok(entries@.skip(idx as int)) && rm_model(*final(m)) == model_fold(
                rm_model(*old(m)),
                flat_entries(entries@.skip(idx as int), prefix@),
            ),
            Err(e) => !entries_ok(entries@.skip(idx as int)) && e is InvalidSourceFileFormat,
        },
    decreases entries@, entries@.len() - idx,
{
    if idx == entries.len() {
        proof {
            assert(entries@.skip(idx as int) =~= Seq::empty());
        }
        return Ok(());
    }
    let ghost rest = entries@.skip(idx as int);
    let ghost acc0 = rm_model(*old(m));
    proof {
        assert(rest[0] == entries@[idx as int]);
        assert(rest.drop_first() =~= entries@.skip(idx as int + 1));
    }
    let path: String = if prefix.unicode_len() == 0 {
        entries[idx].0.clone()
    } else {
        String::from_str(prefix).concat(".").concat(entries[idx].0.as_str())
    };
    proof {
        reveal_strlit(".");
        assert("."@ =~= seq!['.']);
        assert(path@ == child_path(prefix@, entries@[idx as int].0@));
    }
    match &entries[idx].1 {
        RawValue::Str(s) => {
            let ms = parse_leaf(s.as_str());
            let ghost pre = *m;
            m.insert(path, ms);
            proof {
                lemma_rm_model_insert(pre, *m, child_path(prefix@, rest[0].0@), ms);
                assert(flat_entries(rest, prefix@) == seq![
                    (child_path(prefix@, rest[0].0@), leaf_model(s@)),
                ] + flat_entries(rest.drop_first(), prefix@));
            }
        },
        RawValue::List(items) => {
            if items.len() == 0 {
                return Err(I18nError::InvalidSourceFileFormat(path));
            }
            let mut messages: Vec<Message> = Vec::new();
            let mut j: usize = 0;
            while j < items.len()
                invariant
                    j <= items@.len(),
                    messages@.len() == j,
                    forall|t: int| 0 <= t < j ==> (#[trigger] items@[t]) is Str,
                    forall|t: int|
                        0 <= t < j ==> {
                            &&& (#[trigger] messages@[t]).text_view() == str_item_model(
                                items@[t],
                            ).0
                            &&& messages@[t].spans_view() == str_item_model(items@[t]).1
                            &&& messages@[t].wf()
                        },
                decreases items@.len() - j,
            {
                match &items[j] {
                    RawValue::Str(s) => {
                        messages.push(Message::parse_explicit(s.as_str()));
                    },
                    _ => {
                        return Err(I18nError::InvalidSourceFileFormat(path));
                    },
                }
                j = j + 1;
            }
            let ms = MessageSet::new(messages);
            proof {
                assert(ms.model() =~= list_model(items@));
            }
            let ghost pre = *m;
            m.insert(path, ms);
            proof {
                lemma_rm_model_insert(pre, *m, child_path(prefix@, rest[0].0@), ms);
                assert(flat_entries(rest, prefix@) == seq![
                    (child_path(prefix@, rest[0].0@), list_model(items@)),
                ] + flat_entries(rest.drop_first(), prefix@));
            }
        },
        RawValue::Mapping(sub) => {
            let ghost pre = *m;
            match insert_entries(sub, 0, path.as_str(), m) {
                Ok(()) => {
                    proof {
                        assert(sub@.skip(0) =~= sub@);
                        assert(flat_entries(rest, prefix@) == flat_entries(
                            sub@,
                            child_path(prefix@, rest[0].0@),
                        ) + flat_entries(rest.drop_first(), prefix@));
                        lemma_fold_append(
                            acc0,
                            flat_entries(sub@, child_path(prefix@, rest[0].0@)),
                            flat_entries(rest.drop_first(), prefix@),
                        );
                    }
                },
                Err(e) => {
                    proof {
                        assert(sub@.skip(0) =~= sub@);
                    }
                    return Err(e);
                },
            }
        },
        RawValue::Other => {
            return Err(I18nError::InvalidSourceFileFormat(path));
        },
    }
    let ghost mid = rm_model(*m);
    let r2 = insert_entries(entries, idx + 1, prefix, m);
    proof {
        if r2 is Ok {
            match rest[0].1 {
                RawValue::Str(s) => {
                    assert(model_fold(acc0, flat_entries(rest, prefix@)) == model_fold(
                        mid,
                        flat_entries(rest.drop_first(), prefix@),
                    )) by {
                        let head = seq![(child_path(prefix@, rest[0].0@), leaf_model(s@))];
                        assert((head + flat_entries(rest.drop_first(), prefix@)).drop_first()
                            =~= flat_entries(rest.drop_first(), prefix@));
                    }
                },
                RawValue::List(items) => {
                    assert(model_fold(acc0, flat_entries(rest, prefix@)) == model_fold(
                        mid,
                        flat_entries(rest.drop_first(), prefix@),
                    )) by {
                        let head = seq![(child_path(prefix@, rest[0].0@), list_model(items@))];
                        assert((head + flat_entries(rest.drop_first(), prefix@)).drop_first()
                            =~= flat_entries(rest.drop_first(), prefix@));
                    }
                },
                _ => {},
            }
        }
    }
    r2
}

/// Parses one raw resource tree into a per-locale table: nested mappings
/// are flattened into dotted paths in file order, every scalar leaf is cut
/// at the plural separator, and every variant is parsed in the
/// explicit-index form. A tree whose root is not a mapping loads as an
/// empty table; a leaf of any other shape is refused.
pub fn parse(value: &RawValue) -> (r: Result<ResourceMap, I18nError>)
    ensures
        match r {
            Ok(m) => {
                &&& rm_wf(m)
                &&& match *value {
                    RawValue::Mapping(entries) => entries_ok(entries@) && rm_model(m) == model_fold(
                        Seq::empty(),
                        flat_entries(entries@, Seq::empty()),
                    ),
                    _ => rm_model(m) == Seq::<
                        (Seq<char>, Seq<(Seq<char>, Seq<(int, int, int)>)>),
                    >::empty(),
                }
            },
            Err(e) => {
                &&& e is InvalidSourceFileFormat
                &&& match *value {
                    RawValue::Mapping(entries) => !entries_ok(entries@),
                    _ => false,
                }
            },
        },
{
    let mut m: ResourceMap = OrdMap::new();
    proof {
        assert(rm_model(m) =~= Seq::<(Seq<char>, Seq<(Seq<char>, Seq<(int, int, int)>)>)>::empty());
    }
    match value {
        RawValue::Mapping(entries) => {
            let res = insert_entries(entries, 0, "", &mut m);
            proof {
                reveal_strlit("");
                assert(""@ =~= Seq::<char>::empty());
                assert(entries@.skip(0) =~= entries@);
            }
            match res {
                Ok(()) => Ok(m),
                Err(e) => Err(e),
            }
        },
        _ => Ok(m),
    }
}

/// Parses one scalar leaf: the scalar is cut at every plural separator and
/// every piece becomes one variant, parsed in the explicit-index form.
pub fn parse_leaf(text: &str) -> (ms: MessageSet)
    ensures
        ms.wf(),
        ms.model() == leaf_model(text@),
{
    let pieces = split_plural(text);
    let ghost pv = pieces@.map_values(|p: String| p@);
    let mut messages: Vec<Message> = Vec::new();
    let mut j: usize = 0;
    while j < pieces.len()
        invariant
            pv == pieces@.map_values(|p: String| p@),
            j <= pieces@.len(),
            messages@.len() == j,
            forall|t: int|
                0 <= t < j ==> {
                    &&& (#[trigger] messages@[t]).text_view() == pv[t]
                    &&& messages@[t].spans_view() == explicit_spans_from(pv[t], 0)
                    &&& messages@[t].wf()
                },
        decreases pieces@.len() - j,
    {
        proof {
            assert(pieces@[j as int]@ == pv[j as int]);
        }
        messages.push(Message::parse_explicit(pieces[j].as_str()));
        j = j + 1;
    }
    let ms = MessageSet::new(messages);
    proof {
        assert(ms.model() =~= leaf_model(text@));
    }
    ms
}

} // verus!
