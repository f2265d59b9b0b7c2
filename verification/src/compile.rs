use vstd::prelude::*;

use crate::loader::{
    entries_ok, file_kind, flat_entries, lemma_fold_append, lemma_model_insert_shape, model_fold,
    model_insert, model_keys_unique, rm_model, rm_wf, spec_file_kind, FileKind, RawValue,
    ResourceMap,
};
use crate::ordmap::OrdMap;
use crate::result::I18nError;
use crate::strutil::{spec_basename, spec_stem, stem_of, str_eq};

verus! {

/// The tables of all locales, keyed by locale identifier.
pub type LocaleMap = OrdMap<ResourceMap>;

/// A locale map with unique locales and well-formed tables.
pub open spec fn lm_wf(lm: LocaleMap) -> bool {
    &&& lm.wf()
    &&& forall|i: int| 0 <= i < lm.values().len() ==> rm_wf(#[trigger] lm.values()[i])
}

/// Whether some entry of the list carries the key `k`.
pub open spec fn model_has_key<V>(acc: Seq<(Seq<char>, V)>, k: Seq<char>) -> bool {
    exists|i: int| 0 <= i < acc.len() && (#[trigger] acc[i]).0 == k
}

/// The value of the first entry with key `k`, if any.
pub open spec fn model_get<V>(acc: Seq<(Seq<char>, V)>, k: Seq<char>) -> Option<V>
    decreases acc.len(),
{
    if acc.len() == 0 {
        None
    } else if acc[0].0 == k {
        Some(acc[0].1)
    } else {
        model_get(acc.drop_first(), k)
    }
}

/// One target table resolved against the source: the target's own entries,
/// unchanged and in their order, then every source entry whose path the
/// target lacks, in source order.
pub open spec fn resolved_model<V>(src: Seq<(Seq<char>, V)>, tgt: Seq<(Seq<char>, V)>) -> Seq<
    (Seq<char>, V),
> {
    tgt + src.filter(|e: (Seq<char>, V)| !model_has_key(tgt, e.0))
}

/// On a list with unique keys, the first-entry lookup answers every entry.
proof fn lemma_get_unique<V>(acc: Seq<(Seq<char>, V)>, k: Seq<char>)
    requires
        model_keys_unique(acc),
    ensures
        forall|i: int|
            0 <= i < acc.len() && (#[trigger] acc[i]).0 == k ==> model_get(acc, k) == Some(
                acc[i].1,
            ),
        !model_has_key(acc, k) ==> model_get(acc, k) is None,
    decreases acc.len(),
{
    if acc.len() == 0 {
    } else {
        assert forall|i: int, j: int|
            0 <= i < j < acc.drop_first().len() implies (#[trigger] acc.drop_first()[i]).0 != (
        #[trigger] acc.drop_first()[j]).0 by {
            assert(acc.drop_first()[i] == acc[i + 1]);
            assert(acc.drop_first()[j] == acc[j + 1]);
        }
        lemma_get_unique(acc.drop_first(), k);
        if acc[0].0 == k {
            assert forall|i: int|
                0 <= i < acc.len() && (#[trigger] acc[i]).0 == k implies model_get(acc, k) == Some(
                acc[i].1,
            ) by {
                if i != 0 {
                    assert(acc[0].0 != acc[i].0);
                }
            }
        } else {
            assert forall|i: int|
                0 <= i < acc.len() && (#[trigger] acc[i]).0 == k implies model_get(acc, k) == Some(
                acc[i].1,
            ) by {
                assert(acc.drop_first()[i - 1] == acc[i]);
            }
            if !model_has_key(acc, k) {
                assert forall|i: int|
                    0 <= i < acc.drop_first().len() implies (#[trigger] acc.drop_first()[i]).0
                    != k by {
                    assert(acc.drop_first()[i] == acc[i + 1]);
                }
                assert(!model_has_key(acc.drop_first(), k));
            }
        }
    }
}

/// Lookup in a concatenation: the first part answers where it has the key.
proof fn lemma_get_append<V>(a: Seq<(Seq<char>, V)>, b: Seq<(Seq<char>, V)>, k: Seq<char>)
    ensures
        model_has_key(a + b, k) <==> model_has_key(a, k) || model_has_key(b, k),
        model_has_key(a, k) ==> model_get(a + b, k) == model_get(a, k),
        !model_has_key(a, k) ==> model_get(a + b, k) == model_get(b, k),
    decreases a.len(),
{
    if a.len() == 0 {
        assert(a + b =~= b);
        assert(!model_has_key(a, k));
    } else {
        assert((a + b)[0] == a[0]);
        assert((a + b).drop_first() =~= a.drop_first() + b);
        lemma_get_append(a.drop_first(), b, k);
        assert forall|i: int|
            0 <= i < a.drop_first().len() implies (#[trigger] a.drop_first()[i]) == a[i + 1] by {}
        assert(model_has_key(a, k) <==> (a[0].0 == k || model_has_key(a.drop_first(), k))) by {
            if model_has_key(a, k) {
                let i = choose|i: int| 0 <= i < a.len() && (#[trigger] a[i]).0 == k;
                if i > 0 {
                    assert(a.drop_first()[i - 1].0 == k);
                }
            }
        }
        assert(model_has_key(a + b, k) <==> ((a + b)[0].0 == k || model_has_key(
            (a + b).drop_first(),
            k,
        ))) by {
            if model_has_key(a + b, k) {
                let i = choose|i: int| 0 <= i < (a + b).len() && (#[trigger] (a + b)[i]).0 == k;
                if i > 0 {
                    assert((a + b).drop_first()[i - 1].0 == k);
                }
            }
        }
    }
}

/// Filtering a unique-keyed list keeps the keys unique, and keeps the
/// lookup of every key the filter retains.
proof fn lemma_filter_get<V>(
    src: Seq<(Seq<char>, V)>,
    pred: spec_fn((Seq<char>, V)) -> bool,
    k: Seq<char>,
)
    requires
        model_keys_unique(src),
        forall|e: (Seq<char>, V)| e.0 == k ==> #[trigger] pred(e),
    ensures
        model_keys_unique(src.filter(pred)),
        model_has_key(src.filter(pred), k) <==> model_has_key(src, k),
        model_has_key(src, k) ==> model_get(src.filter(pred), k) == model_get(src, k),
        forall|i: int|
            0 <= i < src.filter(pred).len() ==> exists|j: int|
                0 <= j < src.len() && #[trigger] src[j] == #[trigger] src.filter(pred)[i],
    decreases src.len(),
{
    reveal(Seq::filter);
    if src.len() == 0 {
    } else {
        let last = src.last();
        let butlast = src.drop_last();
        assert(model_keys_unique(butlast)) by {
            assert(forall|i: int| 0 <= i < butlast.len() ==> butlast[i] == src[i]);
        }
        lemma_filter_get(butlast, pred, k);
        let fb = butlast.filter(pred);
        // every element of the filtered prefix stands somewhere in the list
        assert forall|i: int| 0 <= i < fb.len() implies exists|j: int|
            0 <= j < butlast.len() && #[trigger] butlast[j] == #[trigger] fb[i] by {
            let j = choose|j: int| 0 <= j < butlast.len() && #[trigger] butlast[j] == fb[i];
            assert(butlast[j] == fb[i]);
        }
        assert forall|i: int| 0 <= i < src.filter(pred).len() implies exists|j: int|
            0 <= j < src.len() && #[trigger] src[j] == #[trigger] src.filter(pred)[i] by {
            if pred(last) {
                assert(src.filter(pred) == fb.push(last));
                if i < fb.len() {
                    let j = choose|j: int| 0 <= j < butlast.len() && #[trigger] butlast[j] == fb[i];
                    assert(src[j] == src.filter(pred)[i]);
                } else {
                    assert(src[src.len() - 1] == src.filter(pred)[i]);
                }
            } else {
                assert(src.filter(pred) == fb);
                let j = choose|j: int| 0 <= j < butlast.len() && #[trigger] butlast[j] == fb[i];
                assert(src[j] == src.filter(pred)[i]);
            }
        }
        if pred(last) {
            assert(src.filter(pred) == fb.push(last));
            assert(model_keys_unique(fb.push(last))) by {
                assert forall|i: int, j: int|
                    0 <= i < j < fb.push(last).len() implies (#[trigger] fb.push(last)[i]).0 != (
                #[trigger] fb.push(last)[j]).0 by {
                    if j < fb.len() {
                        assert(fb.push(last)[i] == fb[i]);
                        assert(fb.push(last)[j] == fb[j]);
                    } else {
                        assert(fb.push(last)[j] == last);
                        assert(fb.push(last)[i] == fb[i]);
                        let jj = choose|jj: int|
                            0 <= jj < butlast.len() && #[trigger] butlast[jj] == fb[i];
                        assert(src[jj] == butlast[jj]);
                        assert(src[jj].0 != src[src.len() - 1].0);
                    }
                }
            }
            assert(fb.push(last) =~= fb + seq![last]);
            lemma_get_append(fb, seq![last], k);
            if last.0 == k {
                assert(model_has_key(src, k));
                assert(!model_has_key(butlast, k)) by {
                    if model_has_key(butlast, k) {
                        let i = choose|i: int|
                            0 <= i < butlast.len() && (#[trigger] butlast[i]).0 == k;
                        assert(src[i].0 != src[src.len() - 1].0);
                    }
                }
                assert(model_has_key(seq![last], k)) by {
                    assert(seq![last][0].0 == k);
                }
                assert(model_get(src.filter(pred), k) == Some(last.1)) by {
                    assert(!model_has_key(fb, k));
                    assert(model_get(seq![last], k) == Some(last.1));
                }
                lemma_get_unique(src, k);
                assert(src[src.len() - 1].0 == k);
                assert(model_get(src, k) == Some(last.1));
            } else {
                assert(model_has_key(src, k) <==> model_has_key(butlast, k)) by {
                    if model_has_key(src, k) {
                        let i = choose|i: int| 0 <= i < src.len() && (#[trigger] src[i]).0 == k;
                        assert(butlast[i].0 == k);
                    }
                }
                assert(!model_has_key(seq![last], k)) by {
                    assert forall|i: int| 0 <= i < 1 implies (#[trigger] seq![last][i]).0 != k by {
                        assert(seq![last][i] == last);
                    }
                }
                if model_has_key(butlast, k) {
                    lemma_get_unique(src, k);
                    lemma_get_unique(butlast, k);
                    let i = choose|i: int|
                        0 <= i < butlast.len() && (#[trigger] butlast[i]).0 == k;
                    assert(src[i].0 == k);
                    assert(model_get(src, k) == Some(src[i].1));
                    assert(model_get(butlast, k) == Some(butlast[i].1));
                }
            }
        } else {
            assert(src.filter(pred) == fb);
            assert(last.0 != k);
            assert(model_has_key(src, k) <==> model_has_key(butlast, k)) by {
                if model_has_key(src, k) {
                    let i = choose|i: int| 0 <= i < src.len() && (#[trigger] src[i]).0 == k;
                    assert(i < butlast.len());
                    assert(butlast[i].0 == k);
                }
            }
            if model_has_key(butlast, k) {
                lemma_get_unique(src, k);
                lemma_get_unique(butlast, k);
                let i = choose|i: int| 0 <= i < butlast.len() && (#[trigger] butlast[i]).0 == k;
                assert(src[i].0 == k);
                assert(model_get(src, k) == Some(src[i].1));
                assert(model_get(butlast, k) == Some(butlast[i].1));
            }
        }
    }
}

/// A copy of a per-locale table with the same paths and the same variants.
fn rm_duplicate(m: &ResourceMap) -> (r: ResourceMap)
    requires
        rm_wf(*m),
    ensures
        rm_wf(r),
        r.keys() == m.keys(),
        rm_model(r) == rm_model(*m),
{
    let mut r: ResourceMap = OrdMap::new();
    let mut i: usize = 0;
    while i < m.len()
        invariant
            rm_wf(*m),
            i <= m.spec_len(),
            r.wf(),
            r.keys() == m.keys().take(i as int),
            r.values().len() == i,
            forall|j: int|
                0 <= j < i ==> {
                    &&& (#[trigger] r.values()[j]).model() == m.values()[j].model()
                    &&& r.values()[j].wf()
                },
        decreases m.spec_len() - i,
    {
        let key = String::from_str(m.key_at(i));
        let value = m.value_at(i).duplicate();
        proof {
            if r.contains_key(key@) {
                let w = choose|w: int| 0 <= w < r.keys().len() && #[trigger] r.keys()[w] == key@;
                assert(m.keys()[w] == m.keys()[i as int]);
            }
            assert(m.keys().take(i as int).push(m.keys()[i as int]) =~= m.keys().take(i + 1));
        }
        r.insert(key, value);
        i = i + 1;
    }
    proof {
        assert(m.keys().take(m.spec_len() as int) =~= m.keys());
        assert(rm_model(r) =~= rm_model(*m));
    }
    r
}

/// One target table resolved against the source table: the target's own
/// entries stay unchanged in their order, and every source path the target
/// lacks is appended with a copy of the source's variants, in source order.
#[verifier::loop_isolation(false)]
fn resolve_one(src: &ResourceMap, tgt: &ResourceMap) -> (out: ResourceMap)
    requires
        rm_wf(*src),
        rm_wf(*tgt),
    ensures
        rm_wf(out),
        rm_model(out) == resolved_model(rm_model(*src), rm_model(*tgt)),
{
    let ghost sm = rm_model(*src);
    let ghost tm = rm_model(*tgt);
    let ghost pred = |e: (Seq<char>, Seq<(Seq<char>, Seq<(int, int, int)>)>)|
        !model_has_key(tm, e.0);
    let mut out = rm_duplicate(tgt);
    let mut i: usize = 0;
    proof {
        reveal(Seq::filter);
        assert(sm.take(0) =~= Seq::empty());
        assert(rm_model(out) =~= tm + sm.take(0).filter(pred));
    }
    while i < src.len()
        invariant
            i <= src.spec_len(),
            rm_wf(out),
            rm_model(out) == tm + sm.take(i as int).filter(pred),
        decreases src.spec_len() - i,
    {
        let ghost pre = rm_model(out);
        proof {
            reveal(Seq::filter);
            assert(sm.take(i + 1).drop_last() =~= sm.take(i as int));
            assert(sm.take(i + 1).last() == sm[i as int]);
            assert(sm[i as int].0 == src.keys()[i as int]);
        }
        let k = src.key_at(i);
        if !tgt.has_key(k) {
            proof {
                assert(pred(sm[i as int]));
                assert(sm.take(i + 1).filter(pred) == sm.take(i as int).filter(pred).push(
                    sm[i as int],
                ));
                // the path is new to `out`: it is in neither part of the model
                if out.contains_key(k@) {
                    let w = choose|w: int|
                        0 <= w < out.keys().len() && #[trigger] out.keys()[w] == k@;
                    assert(rm_model(out)[w].0 == k@);
                    if w < tm.len() {
                        assert(model_has_key(tm, k@));
                        assert(tgt.keys()[w] == k@);
                    } else {
                        let f = sm.take(i as int).filter(pred);
                        assert(f[w - tm.len()] == rm_model(out)[w]);
                        lemma_filter_get(sm.take(i as int), pred, k@);
                        let j = choose|j: int|
                            0 <= j < sm.take(i as int).len() && #[trigger] sm.take(i as int)[j]
                                == f[w - tm.len()];
                        assert(sm[j].0 == k@);
                        assert(src.keys()[j] == src.keys()[i as int]);
                    }
                }
                assert(model_keys_unique(sm.take(i as int))) by {
                    assert(forall|a: int|
                        0 <= a < i ==> (#[trigger] sm.take(i as int)[a]).0 == src.keys()[a]);
                }
            }
            let ghost pre_map = out;
            out.insert(String::from_str(k), src.value_at(i).duplicate());
            proof {
                assert(rm_model(out) =~= rm_model(pre_map).push(
                    (k@, src.values()[i as int].model()),
                ));
                assert(sm[i as int] == (k@, src.values()[i as int].model()));
                assert(rm_model(out) =~= tm + sm.take(i + 1).filter(pred));
            }
        } else {
            proof {
                assert(model_has_key(tm, k@)) by {
                    let w = tgt.key_index(k@);
                    assert(rm_model(*tgt)[w].0 == k@);
                }
                assert(!pred(sm[i as int]));
                assert(sm.take(i + 1).filter(pred) == sm.take(i as int).filter(pred));
            }
        }
        i = i + 1;
    }
    proof {
        assert(sm.take(src.spec_len() as int) =~= sm);
    }
    out
}

/// The table of locale `i` after resolution: the source locale's own table
/// unchanged, every other locale's table resolved against the source's.
pub open spec fn locale_resolved(locales: LocaleMap, out: LocaleMap, src_key: Seq<char>, i: int) -> bool {
    rm_model(out.values()[i]) == (if locales.keys()[i] == src_key {
        rm_model(locales.values()[i])
    } else {
        resolved_model(
            rm_model(locales.spec_get(src_key).get_Some_0()),
            rm_model(locales.values()[i]),
        )
    })
}

/// Every locale's table resolved against the designated source locale's
/// table: the source locale itself is kept unchanged, every other locale
/// keeps its own entries and inherits the source's entries at the paths it
/// lacks. Fails when no table carries the source locale.
#[verifier::loop_isolation(false)]
pub fn resolve_fallback(locales: &LocaleMap, source_locale: &str) -> (r: Result<
    LocaleMap,
    I18nError,
>)
    requires
        lm_wf(*locales),
    ensures
        match r {
            Ok(out) => {
                &&& locales.contains_key(source_locale@)
                &&& lm_wf(out)
                &&& out.keys() == locales.keys()
                &&& out.values().len() == locales.values().len()
                &&& forall|i: int|
                    0 <= i < out.values().len() ==> #[trigger] locale_resolved(
                        *locales,
                        out,
                        source_locale@,
                        i,
                    )
            },
            Err(e) => {
                &&& e is SourceLocaleNotExists
                &&& !locales.contains_key(source_locale@)
            },
        },
{
    let src = match locales.get(source_locale) {
        Some(v) => v,
        None => {
            return Err(I18nError::SourceLocaleNotExists);
        },
    };
    proof {
        let w = locales.key_index(source_locale@);
        assert(rm_wf(locales.values()[w]));
        assert(rm_wf(*src));
    }
    let mut out: LocaleMap = OrdMap::new();
    let mut i: usize = 0;
    while i < locales.len()
        invariant
            i <= locales.spec_len(),
            out.wf(),
            out.keys() == locales.keys().take(i as int),
            out.values().len() == i,
            *src == locales.spec_get(source_locale@).get_Some_0(),
            rm_wf(*src),
            forall|j: int|
                0 <= j < i ==> rm_wf(#[trigger] out.values()[j]) && locale_resolved(
                    *locales,
                    out,
                    source_locale@,
                    j,
                ),
        decreases locales.spec_len() - i,
    {
        let lkey = locales.key_at(i);
        let resolved: ResourceMap = if str_eq(lkey, source_locale) {
            rm_duplicate(locales.value_at(i))
        } else {
            resolve_one(src, locales.value_at(i))
        };
        proof {
            if out.contains_key(lkey@) {
                let w = choose|w: int|
                    0 <= w < out.keys().len() && #[trigger] out.keys()[w] == lkey@;
                assert(locales.keys()[w] == locales.keys()[i as int]);
            }
            assert(locales.keys().take(i as int).push(locales.keys()[i as int])
                =~= locales.keys().take(i + 1));
        }
        out.insert(String::from_str(lkey), resolved);
        i = i + 1;
    }
    proof {
        assert(locales.keys().take(locales.spec_len() as int) =~= locales.keys());
    }
    Ok(out)
}

/// One directory entry handed to the compiler: the file's path, and, when
/// its extension is supported and an outside parser could read it, the raw
/// tree of its contents. `None` for a supported file means the file could
/// not be read as its format.
pub struct DirEntry {
    pub path: String,
    pub value: Option<RawValue>,
}

/// The outcome of compiling a directory: every locale's resolved table,
/// keyed by locale, and the paths skipped for their unsupported extensions.
pub struct Compiled {
    pub locales: LocaleMap,
    pub skipped: Vec<String>,
}

/// The entries of a locale map: each locale with its table's entries.
pub open spec fn lm_model(lm: LocaleMap) -> Seq<
    (Seq<char>, Seq<(Seq<char>, Seq<(Seq<char>, Seq<(int, int, int)>)>)>),
> {
    Seq::new(lm.spec_len(), |i: int| (lm.keys()[i], rm_model(lm.values()[i])))
}

/// Whether the entry's extension selects a supported format.
pub open spec fn entry_supported(e: DirEntry) -> bool {
    spec_file_kind(e.path@) != FileKind::Unsupported
}

/// A supported file that cannot be loaded: it could not be read as its
/// format, or a leaf under it has an unsupported shape.
pub open spec fn entry_bad(e: DirEntry) -> bool {
    entry_supported(e) && match e.value {
        Option::None => true,
        Option::Some(v) => match v {
            RawValue::Mapping(ent) => !entries_ok(ent@),
            _ => false,
        },
    }
}

/// The table one raw tree loads to.
pub open spec fn parse_model(ov: Option<RawValue>) -> Seq<
    (Seq<char>, Seq<(Seq<char>, Seq<(int, int, int)>)>),
> {
    match ov {
        Option::Some(RawValue::Mapping(ent)) => model_fold(
            Seq::empty(),
            flat_entries(ent@, Seq::empty()),
        ),
        _ => Seq::empty(),
    }
}

/// The locale map a directory loads to, before fallback resolution: each
/// supported file contributes its stem as the locale and its parsed table,
/// in directory order, a later file of the same stem replacing an earlier.
pub open spec fn load_model(files: Seq<DirEntry>) -> Seq<
    (Seq<char>, Seq<(Seq<char>, Seq<(Seq<char>, Seq<(int, int, int)>)>)>),
> {
    model_fold(
        Seq::empty(),
        files.filter(|e: DirEntry| entry_supported(e)).map_values(
            |e: DirEntry| (spec_stem(spec_basename(e.path@)), parse_model(e.value)),
        ),
    )
}

/// The paths of the files skipped for their extensions, in directory order.
pub open spec fn skipped_model(files: Seq<DirEntry>) -> Seq<Seq<char>> {
    files.filter(|e: DirEntry| !entry_supported(e)).map_values(|e: DirEntry| e.path@)
}

/// The locale map after fallback resolution, at the model level.
pub open spec fn resolve_model(
    lm: Seq<(Seq<char>, Seq<(Seq<char>, Seq<(Seq<char>, Seq<(int, int, int)>)>)>)>,
    sk: Seq<char>,
) -> Seq<(Seq<char>, Seq<(Seq<char>, Seq<(Seq<char>, Seq<(int, int, int)>)>)>)> {
    Seq::new(
        lm.len(),
        |i: int|
            (
                lm[i].0,
                if lm[i].0 == sk {
                    lm[i].1
                } else {
                    resolved_model(model_get(lm, sk).get_Some_0(), lm[i].1)
                },
            ),
    )
}

/// A locale-map insert binds one locale on the map's model.
proof fn lemma_lm_model_insert(pre: LocaleMap, post: LocaleMap, k: Seq<char>, v: ResourceMap)
    requires
        pre.wf(),
        pre.contains_key(k) ==> post.keys() == pre.keys() && post.values() == pre.values().update(
            pre.key_index(k),
            v,
        ),
        !pre.contains_key(k) ==> post.keys() == pre.keys().push(k) && post.values()
            == pre.values().push(v),
    ensures
        lm_model(post) == model_insert(lm_model(pre), k, rm_model(v)),
{
    assert(model_keys_unique(lm_model(pre)));
    lemma_model_insert_shape(lm_model(pre), k, rm_model(v));
    if pre.contains_key(k) {
        let j = pre.key_index(k);
        assert(lm_model(pre)[j].0 == k);
        assert(lm_model(post) =~= lm_model(pre).update(j, (k, rm_model(v))));
    } else {
        assert forall|j: int| 0 <= j < lm_model(pre).len() implies (#[trigger] lm_model(pre)[j]).0
            != k by {
            assert(pre.keys()[j] == lm_model(pre)[j].0);
        }
        assert(lm_model(pre).len() == pre.keys().len());
        assert(lm_model(post).len() == post.keys().len());
        assert forall|i: int| 0 <= i < lm_model(post).len() implies lm_model(post)[i] == lm_model(
            pre,
        ).push((k, rm_model(v)))[i] by {
            if i < lm_model(pre).len() {
                assert(post.keys()[i] == pre.keys()[i]);
                assert(post.values()[i] == pre.values()[i]);
            } else {
                assert(i == pre.keys().len());
                assert(pre.keys().push(k)[pre.keys().len() as int] == k);
                assert(pre.values().push(v)[pre.values().len() as int] == v);
                assert(post.keys()[i] == k);
                assert(post.values()[i] == v);
            }
        }
        assert(lm_model(post) =~= lm_model(pre).push((k, rm_model(v))));
    }
}

/// Loads every file of a directory: supported files are parsed into
/// per-locale tables keyed by their stem, files with other extensions are
/// set aside as skipped.
#[verifier::loop_isolation(false)]
fn load_dir(files: &Vec<DirEntry>) -> (r: Result<(LocaleMap, Vec<String>), I18nError>)
    ensures
        match r {
            Ok(p) => {
                &&& forall|i: int| 0 <= i < files@.len() ==> !entry_bad(#[trigger] files@[i])
                &&& lm_wf(p.0)
                &&& lm_model(p.0) == load_model(files@)
                &&& p.1@.map_values(|s: String| s@) == skipped_model(files@)
            },
            Err(e) => {
                &&& exists|i: int| 0 <= i < files@.len() && entry_bad(#[trigger] files@[i])
                &&& e is InvalidSourceFileFormat
            },
        },
{
    let ghost sup = |e: DirEntry| entry_supported(e);
    let ghost unsup = |e: DirEntry| !entry_supported(e);
    let ghost tomodel = |e: DirEntry| (spec_stem(spec_basename(e.path@)), parse_model(e.value));
    let ghost topath = |e: DirEntry| e.path@;
    let mut lm: LocaleMap = OrdMap::new();
    let mut skipped: Vec<String> = Vec::new();
    let mut i: usize = 0;
    proof {
        reveal(Seq::filter);
        assert(files@.take(0) =~= Seq::<DirEntry>::empty());
        assert(lm_model(lm) =~= load_model(files@.take(0)));
        assert(skipped@.map_values(|s: String| s@) =~= skipped_model(files@.take(0)));
    }
    while i < files.len()
        invariant
            i <= files@.len(),
            lm_wf(lm),
            lm_model(lm) == load_model(files@.take(i as int)),
            skipped@.map_values(|s: String| s@) == skipped_model(files@.take(i as int)),
            forall|j: int| 0 <= j < i ==> !entry_bad(#[trigger] files@[j]),
        decreases files@.len() - i,
    {
        let ghost e = files@[i as int];
        proof {
            reveal(Seq::filter);
            assert(files@.take(i + 1).drop_last() =~= files@.take(i as int));
            assert(files@.take(i + 1).last() == e);
        }
        let kind = file_kind(files[i].path.as_str());
        if matches!(kind, FileKind::Unsupported) {
            let p = files[i].path.clone();
            proof {
                assert(files@.take(i + 1).filter(unsup) == files@.take(i as int).filter(unsup).push(
                    e,
                ));
                assert(files@.take(i + 1).filter(sup) == files@.take(i as int).filter(sup));
                assert((skipped@.push(p)).map_values(|s: String| s@) =~= skipped@.map_values(
                    |s: String| s@,
                ).push(p@));
            }
            skipped.push(p);
        } else {
            let table = match &files[i].value {
                Some(v) => {
                    match crate::loader::parse(v) {
                        Ok(t) => t,
                        Err(err) => {
                            proof {
                                assert(entry_bad(files@[i as int]));
                            }
                            return Err(err);
                        },
                    }
                },
                None => {
                    proof {
                        assert(entry_bad(files@[i as int]));
                    }
                    return Err(I18nError::InvalidSourceFileFormat(files[i].path.clone()));
                },
            };
            let stem = stem_of(files[i].path.as_str());
            let ghost pre = lm;
            proof {
                assert(rm_model(table) == parse_model(e.value));
                assert(files@.take(i + 1).filter(sup) == files@.take(i as int).filter(sup).push(e));
                assert(files@.take(i + 1).filter(unsup) == files@.take(i as int).filter(unsup));
                assert(files@.take(i + 1).filter(sup).map_values(tomodel) =~= files@.take(
                    i as int,
                ).filter(sup).map_values(tomodel).push(tomodel(e)));
                assert(files@.take(i as int).filter(sup).map_values(tomodel).push(tomodel(e))
                    =~= files@.take(i as int).filter(sup).map_values(tomodel) + seq![tomodel(e)]);
                lemma_fold_append(
                    Seq::empty(),
                    files@.take(i as int).filter(sup).map_values(tomodel),
                    seq![tomodel(e)],
                );
                assert(seq![tomodel(e)].drop_first() =~= Seq::<
                    (Seq<char>, Seq<(Seq<char>, Seq<(Seq<char>, Seq<(int, int, int)>)>)>),
                >::empty());
            }
            lm.insert(stem, table);
            proof {
                lemma_lm_model_insert(pre, lm, tomodel(e).0, table);
                let mp = files@.take(i as int).filter(sup).map_values(tomodel);
                let x = tomodel(e);
                assert(load_model(files@.take(i + 1)) == model_fold(Seq::empty(), mp + seq![x]));
                assert(model_fold(Seq::empty(), mp + seq![x]) == model_fold(
                    model_fold(Seq::empty(), mp),
                    seq![x],
                ));
                assert(model_fold(lm_model(pre), seq![x]) == model_fold(
                    model_insert(lm_model(pre), x.0, x.1),
                    seq![x].drop_first(),
                ));
                assert(model_fold(model_insert(lm_model(pre), x.0, x.1), seq![x].drop_first())
                    == model_insert(lm_model(pre), x.0, x.1));
                assert(lm_model(lm) == load_model(files@.take(i + 1)));
            }
        }
        i = i + 1;
    }
    proof {
        assert(files@.take(files@.len() as int) =~= files@);
    }
    Ok((lm, skipped))
}

/// Compiles a directory of locale resource files: every supported file is
/// loaded into its locale's table, files with unsupported extensions are
/// skipped and recorded, and every locale is resolved against the
/// designated source locale. Fails when a supported file cannot be loaded,
/// or, all files loading cleanly, when no file carries the source locale.
pub fn compile_entries(files: &Vec<DirEntry>, source_locale: &str) -> (r: Result<
    Compiled,
    I18nError,
>)
    ensures
        match r {
            Ok(c) => {
                &&& forall|i: int| 0 <= i < files@.len() ==> !entry_bad(#[trigger] files@[i])
                &&& model_has_key(load_model(files@), source_locale@)
                &&& lm_wf(c.locales)
                &&& lm_model(c.locales) == resolve_model(load_model(files@), source_locale@)
                &&& c.skipped@.map_values(|s: String| s@) == skipped_model(files@)
            },
            Err(e) => match e {
                I18nError::SourceLocaleNotExists => {
                    &&& forall|i: int| 0 <= i < files@.len() ==> !entry_bad(#[trigger] files@[i])
                    &&& !model_has_key(load_model(files@), source_locale@)
                },
                I18nError::InvalidSourceFileFormat(_) => exists|i: int|
                    0 <= i < files@.len() && entry_bad(#[trigger] files@[i]),
            },
        },
{
    let (lm, skipped) = match load_dir(files) {
        Ok(p) => p,
        Err(e) => {
            return Err(e);
        },
    };
    proof {
        // the loaded map's locales and the model's keys line up
        assert forall|w: int| 0 <= w < lm.keys().len() implies (#[trigger] lm.keys()[w])
            == lm_model(lm)[w].0 by {}
        if lm.contains_key(source_locale@) {
            let w = lm.key_index(source_locale@);
            assert(lm_model(lm)[w].0 == source_locale@);
            assert(model_has_key(lm_model(lm), source_locale@));
        }
        if model_has_key(lm_model(lm), source_locale@) {
            let w = choose|w: int|
                0 <= w < lm_model(lm).len() && (#[trigger] lm_model(lm)[w]).0 == source_locale@;
            assert(lm.keys()[w] == source_locale@);
            assert(lm.contains_key(source_locale@));
        }
    }
    let out = match resolve_fallback(&lm, source_locale) {
        Ok(o) => o,
        Err(e) => {
            return Err(e);
        },
    };
    proof {
        let sk = source_locale@;
        assert(model_keys_unique(lm_model(lm))) by {
            assert(forall|w: int|
                0 <= w < lm.keys().len() ==> (#[trigger] lm.keys()[w]) == lm_model(lm)[w].0);
        }
        lemma_get_unique(lm_model(lm), sk);
        let w = lm.key_index(sk);
        assert(lm_model(lm)[w].0 == sk);
        assert(model_get(lm_model(lm), sk) == Some(lm_model(lm)[w].1));
        assert(lm.spec_get(sk).get_Some_0() == lm.values()[w]);
        assert forall|i: int| 0 <= i < lm_model(out).len() implies lm_model(out)[i]
            == resolve_model(lm_model(lm), sk)[i] by {
            assert(locale_resolved(lm, out, sk, i));
            assert(out.keys()[i] == lm.keys()[i]);
        }
        assert(lm_model(out) =~= resolve_model(lm_model(lm), sk));
    }
    Ok(Compiled { locales: out, skipped })
}

impl Compiled {
    /// The resolved table of one locale. An unknown locale is refused by
    /// contract, not answered by a fallback: fallback already happened at
    /// compile time, so a miss here is a programmer error.
    pub fn translator(&self, locale: &str) -> (r: &ResourceMap)
        requires
            self.locales.wf(),
            self.locales.contains_key(locale@),
        ensures
            Some(*r) == self.locales.spec_get(locale@),
    {
        match self.locales.get(locale) {
            Some(v) => v,
            None => vstd::pervasive::unreached(),
        }
    }
}

/// Fallback completeness. After resolution against the source, a target
/// exposes every path of the source and every path of its own: a path the
/// target defines keeps the target's value, a path only the source defines
/// carries the source's value, and no other path appears.
pub proof fn lemma_fallback_completeness<V>(
    src: Seq<(Seq<char>, V)>,
    tgt: Seq<(Seq<char>, V)>,
    k: Seq<char>,
)
    requires
        model_keys_unique(src),
        model_keys_unique(tgt),
    ensures
        model_has_key(resolved_model(src, tgt), k) <==> model_has_key(src, k) || model_has_key(
            tgt,
            k,
        ),
        model_has_key(tgt, k) ==> model_get(resolved_model(src, tgt), k) == model_get(tgt, k),
        !model_has_key(tgt, k) && model_has_key(src, k) ==> model_get(resolved_model(src, tgt), k)
            == model_get(src, k),
{
    let pred = |e: (Seq<char>, V)| !model_has_key(tgt, e.0);
    lemma_get_append(tgt, src.filter(pred), k);
    if !model_has_key(tgt, k) {
        assert(forall|e: (Seq<char>, V)| e.0 == k ==> #[trigger] pred(e));
        lemma_filter_get(src, pred, k);
    } else {
        if model_has_key(src.filter(pred), k) {
            reveal(Seq::filter);
            let i = choose|i: int|
                0 <= i < src.filter(pred).len() && (#[trigger] src.filter(pred)[i]).0 == k;
            src.lemma_filter_pred(pred, i);
            assert(pred(src.filter(pred)[i]));
        }
    }
}

} // verus!
