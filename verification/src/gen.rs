use convert_case::Casing;
use vstd::prelude::*;

verus! {

/// Number of consecutive characters of `s` from `i` that can stand inside
/// a brace capture: anything but a closing brace or a line break.
pub open spec fn cap_run(s: Seq<char>, i: int) -> int
    decreases s.len() - i,
{
    if i < 0 || i >= s.len() || s[i] == '}' || s[i] == '\n' {
        0
    } else {
        1 + cap_run(s, i + 1)
    }
}

/// Whether a brace capture starts at position `p` of `s`: an opening
/// brace, any run of characters without a closing brace or line break, and
/// the closing brace that ends the run.
pub open spec fn cap_match_at(s: Seq<char>, p: int) -> bool {
    &&& 0 <= p < s.len()
    &&& s[p] == '{'
    &&& p + 1 + cap_run(s, p + 1) < s.len()
    &&& s[p + 1 + cap_run(s, p + 1)] == '}'
}

/// Position one past the closing brace of the capture starting at `p`.
pub open spec fn cap_end(s: Seq<char>, p: int) -> int {
    p + 2 + cap_run(s, p + 1)
}

/// The text inside the capture starting at `p`.
pub open spec fn cap_text(s: Seq<char>, p: int) -> Seq<char> {
    s.subrange(p + 1, p + 1 + cap_run(s, p + 1))
}

/// The contents of all brace captures of `s` at or after position `i`, in
/// text order: the scan takes the leftmost capture and resumes right after
/// its closing brace.
pub open spec fn captures_from(s: Seq<char>, i: int) -> Seq<Seq<char>>
    decreases s.len() - i,
    via captures_from_decreases
{
    if i < 0 || i >= s.len() {
        Seq::empty()
    } else if cap_match_at(s, i) {
        seq![cap_text(s, i)] + captures_from(s, cap_end(s, i))
    } else {
        captures_from(s, i + 1)
    }
}

/// A capture run never runs backwards: the scan position advances.
proof fn lemma_cap_run_nonneg(s: Seq<char>, i: int)
    ensures
        cap_run(s, i) >= 0,
    decreases s.len() - i,
{
    if i < 0 || i >= s.len() || s[i] == '}' || s[i] == '\n' {
    } else {
        lemma_cap_run_nonneg(s, i + 1);
    }
}

#[via_fn]
proof fn captures_from_decreases(s: Seq<char>, i: int) {
    lemma_cap_run_nonneg(s, i + 1);
}

/// How many brace captures a message holds.
pub open spec fn cap_count(s: Seq<char>) -> int {
    captures_from(s, 0).len() as int
}

/// Counts the consecutive capture characters of `text` starting at `from`.
fn scan_cap_run(text: &str, from: usize, len: usize) -> (r: usize)
    requires
        len == text@.len(),
        from <= len,
    ensures
        r == cap_run(text@, from as int),
        from + r <= len,
{
    let mut r: usize = 0;
    loop
        invariant_except_break
            len == text@.len(),
            from + r <= len,
            cap_run(text@, from as int) == r + cap_run(text@, (from + r) as int),
        ensures
            r == cap_run(text@, from as int),
            from + r <= len,
        decreases len - from - r,
    {
        if from + r < len {
            let c = text.get_char(from + r);
            if c != '}' && c != '\n' {
                proof {
                    assert(cap_run(text@, (from + r) as int) == 1 + cap_run(
                        text@,
                        (from + r) as int + 1,
                    ));
                }
                r = r + 1;
            } else {
                proof {
                    assert(cap_run(text@, (from + r) as int) == 0);
                }
                break ;
            }
        } else {
            proof {
                assert(cap_run(text@, (from + r) as int) == 0);
            }
            break ;
        }
    }
    r
}

/// Collects the contents of all brace captures of `text`, in text order.
pub fn scan_captures(text: &str) -> (caps: Vec<String>)
    ensures
        caps@.map_values(|c: String| c@) == captures_from(text@, 0),
{
    let ghost s = text@;
    let len = text.unicode_len();
    let mut caps: Vec<String> = Vec::new();
    let mut i: usize = 0;
    while i < len
        invariant
            len == s.len(),
            s == text@,
            i <= len,
            captures_from(s, 0) == caps@.map_values(|c: String| c@) + captures_from(s, i as int),
        decreases len - i,
    {
        let mut matched = false;
        if text.get_char(i) == '{' {
            let r = scan_cap_run(text, i + 1, len);
            if i + 1 + r < len {
                if text.get_char(i + 1 + r) == '}' {
                    let cap = String::from_str(text.substring_char(i + 1, i + 1 + r));
                    let end = i + 2 + r;
                    proof {
                        assert(cap_match_at(s, i as int));
                        assert(cap@ == cap_text(s, i as int));
                        assert(captures_from(s, i as int) == seq![cap_text(s, i as int)]
                            + captures_from(s, end as int));
                        assert((caps@.push(cap)).map_values(|c: String| c@) =~= caps@.map_values(
                            |c: String| c@,
                        ) + seq![cap@]);
                        assert(captures_from(s, 0) =~= (caps@.push(cap)).map_values(
                            |c: String| c@,
                        ) + captures_from(s, end as int));
                    }
                    caps.push(cap);
                    i = end;
                    matched = true;
                }
            }
        }
        if !matched {
            proof {
                assert(!cap_match_at(s, i as int));
                assert(captures_from(s, i as int) == captures_from(s, i + 1));
            }
            i = i + 1;
        }
    }
    proof {
        assert(captures_from(s, i as int) =~= Seq::<Seq<char>>::empty());
        assert(captures_from(s, 0) =~= caps@.map_values(|c: String| c@));
    }
    caps
}

/// The character of one decimal digit.
pub open spec fn digit_char(d: int) -> char {
    if d == 0 {
        '0'
    } else if d == 1 {
        '1'
    } else if d == 2 {
        '2'
    } else if d == 3 {
        '3'
    } else if d == 4 {
        '4'
    } else if d == 5 {
        '5'
    } else if d == 6 {
        '6'
    } else if d == 7 {
        '7'
    } else if d == 8 {
        '8'
    } else {
        '9'
    }
}

/// The decimal rendering of a non-negative number, most significant digit
/// first.
pub open spec fn dec_str(n: int) -> Seq<char>
    decreases n,
{
    if n < 10 {
        seq![digit_char(n)]
    } else {
        dec_str(n / 10) + seq![digit_char(n % 10)]
    }
}

/// One decimal digit as text.
fn digit_lit(d: usize) -> (r: &'static str)
    requires
        d < 10,
    ensures
        r@ == seq![digit_char(d as int)],
{
    proof {
        reveal_strlit("0");
        reveal_strlit("1");
        reveal_strlit("2");
        reveal_strlit("3");
        reveal_strlit("4");
        reveal_strlit("5");
        reveal_strlit("6");
        reveal_strlit("7");
        reveal_strlit("8");
        reveal_strlit("9");
    }
    match d {
        0 => "0",
        1 => "1",
        2 => "2",
        3 => "3",
        4 => "4",
        5 => "5",
        6 => "6",
        7 => "7",
        8 => "8",
        _ => {
            proof {
                assert(d == 9);
            }
            "9"
        },
    }
}

/// Renders a number in decimal.
fn dec_of(n: usize) -> (r: String)
    ensures
        r@ == dec_str(n as int),
    decreases n,
{
    if n < 10 {
        String::from_str(digit_lit(n))
    } else {
        let high = dec_of(n / 10);
        high.concat(digit_lit(n % 10))
    }
}

/// The views of a list of strings.
pub open spec fn strs_view(v: Seq<String>) -> Seq<Seq<char>> {
    v.map_values(|x: String| x@)
}

/// The first `n` pieces of the generated argument list: one `, {name}_{i}:
/// &str` parameter per capture, named after the capture's contents and its
/// position.
pub open spec fn args_upto(caps: Seq<Seq<char>>, n: int) -> Seq<char>
    decreases n,
{
    if n <= 0 {
        Seq::empty()
    } else {
        args_upto(caps, n - 1) + ", "@ + caps[n - 1] + "_"@ + dec_str(n - 1) + ": &str"@
    }
}

/// The first `n` pieces of the generated replacement chain: one
/// `.replacen(..)` call per capture.
pub open spec fn reps_upto(caps: Seq<Seq<char>>, n: int) -> Seq<char>
    decreases n,
{
    if n <= 0 {
        Seq::empty()
    } else {
        reps_upto(caps, n - 1) + ".replacen(\"{"@ + caps[n - 1] + "}\", "@ + caps[n - 1] + "_"@
            + dec_str(n - 1) + ", 1)"@
    }
}

/// The generated parameter list for a message: empty when the message has
/// no captures.
pub open spec fn args_text(caps: Seq<Seq<char>>) -> Seq<char> {
    if caps.len() == 0 {
        Seq::empty()
    } else {
        args_upto(caps, caps.len() as int)
    }
}

/// The generated accessor body tail for a message: a plain copy when the
/// message has no captures, one replacement per capture otherwise.
pub open spec fn reps_text(caps: Seq<Seq<char>>) -> Seq<char> {
    if caps.len() == 0 {
        ".to_string()"@
    } else {
        reps_upto(caps, caps.len() as int)
    }
}

/// Renders the generated parameter list and replacement chain for one
/// message.
fn parse_args(message: &String) -> (r: (String, String))
    ensures
        r.0@ == args_text(captures_from(message@, 0)),
        r.1@ == reps_text(captures_from(message@, 0)),
{
    let caps = scan_captures(message.as_str());
    let ghost cv = captures_from(message@, 0);
    if caps.len() == 0 {
        proof {
            assert(cv.len() == 0);
        }
        return (String::new(), String::from_str(".to_string()"));
    }
    let mut args = String::new();
    let mut reps = String::new();
    let mut i: usize = 0;
    while i < caps.len()
        invariant
            cv == caps@.map_values(|c: String| c@),
            i <= caps@.len(),
            args@ == args_upto(cv, i as int),
            reps@ == reps_upto(cv, i as int),
        decreases caps@.len() - i,
    {
        let n = dec_of(i);
        args.append(", ");
        args.append(caps[i].as_str());
        args.append("_");
        args.append(n.as_str());
        args.append(": &str");
        reps.append(".replacen(\"{");
        reps.append(caps[i].as_str());
        reps.append("}\", ");
        reps.append(caps[i].as_str());
        reps.append("_");
        reps.append(n.as_str());
        reps.append(", 1)");
        proof {
            assert(caps@[i as int]@ == cv[i as int]);
        }
        i = i + 1;
    }
    (args, reps)
}

/// The position of the message whose capture count is largest, the last
/// such message winning a tie, among the first `upto` messages.
pub open spec fn best_idx(msgs: Seq<Seq<char>>, upto: int) -> int
    decreases upto,
{
    if upto <= 1 {
        0
    } else {
        let b = best_idx(msgs, upto - 1);
        if cap_count(msgs[upto - 1]) >= cap_count(msgs[b]) {
            upto - 1
        } else {
            b
        }
    }
}

/// The position of the message with the most captures, the last of the
/// messages with that count.
fn max_args_index(messages: &Vec<String>) -> (r: usize)
    requires
        messages@.len() >= 1,
    ensures
        r < messages@.len(),
        r == best_idx(strs_view(messages@), messages@.len() as int),
{
    let ghost mv = strs_view(messages@);
    let mut best: usize = 0;
    let mut best_count: usize = scan_captures(messages[0].as_str()).len();
    let mut i: usize = 1;
    while i < messages.len()
        invariant
            mv == strs_view(messages@),
            1 <= i <= messages@.len(),
            best < i,
            best == best_idx(mv, i as int),
            best_count == cap_count(mv[best as int]),
        decreases messages@.len() - i,
    {
        let c = scan_captures(messages[i].as_str()).len();
        proof {
            assert(messages@[i as int]@ == mv[i as int]);
        }
        if c >= best_count {
            best = i;
            best_count = c;
        }
        i = i + 1;
    }
    best
}

/// One literal message, as the generator holds it.
pub struct Singular(pub String);

/// One pluralized message: its variants, in order.
pub struct Plural(pub Vec<String>);

/// One namespace level: child name to child value, in insertion order.
pub struct Namespace(pub Vec<(String, Value)>);

/// A node of the generator's resource tree.
pub enum Value {
    Singular(Singular),
    Plural(Plural),
    Namespace(Namespace),
}

/// The namespace inside a namespace-valued node.
pub open spec fn ns_of(v: Value) -> Namespace {
    match v {
        Value::Namespace(m) => m,
        _ => arbitrary(),
    }
}

/// The value of the first entry named `k`, if any.
pub open spec fn entries_get_v(entries: Seq<(String, Value)>, k: Seq<char>) -> Option<Value>
    decreases entries.len(),
{
    if entries.len() == 0 {
        None
    } else if entries[0].0@ == k {
        Some(entries[0].1)
    } else {
        entries_get_v(entries.drop_first(), k)
    }
}

/// The value of the child named `k`, if any.
pub open spec fn ns_lookup(m: Namespace, k: Seq<char>) -> Option<Value> {
    entries_get_v(m.0@, k)
}

/// The child names, in order.
pub open spec fn ns_keys(m: Namespace) -> Seq<Seq<char>> {
    m.0@.map_values(|e: (String, Value)| e.0@)
}

impl Value {
    /// The namespace held by this node, which must be a namespace.
    pub fn as_map(&self) -> (r: &Namespace)
        requires
            self is Namespace,
        ensures
            *r == ns_of(*self),
    {
        match self {
            Value::Namespace(m) => m,
            _ => vstd::pervasive::unreached(),
        }
    }

    /// The namespace held by this node, for writing.
    pub fn as_map_mut(&mut self) -> (r: &mut Namespace)
        requires
            *old(self) is Namespace,
        ensures
            *r == ns_of(*old(self)),
            *final(self) == Value::Namespace(*final(r)),
    {
        match self {
            Value::Namespace(m) => m,
            _ => vstd::pervasive::unreached(),
        }
    }
}

/// The views of a path given as string slices.
pub open spec fn path_of(ns: Seq<&str>) -> Seq<Seq<char>> {
    ns.map_values(|s: &str| s@)
}

/// Whether a path can be inserted: every existing binding of an inner
/// segment must be a namespace (the final segment may replace anything).
pub open spec fn insert_ok(m: Namespace, path: Seq<Seq<char>>) -> bool
    decreases path.len(),
{
    if path.len() <= 1 {
        true
    } else {
        match ns_lookup(m, path[0]) {
            Option::None => true,
            Option::Some(v) => match v {
                Value::Namespace(sub) => insert_ok(sub, path.drop_first()),
                _ => false,
            },
        }
    }
}

/// A namespace holding exactly one freshly built chain: the single child
/// `path[0]`, leading through fresh namespaces to `value`.
pub open spec fn ns_chain(m: Namespace, path: Seq<Seq<char>>, value: Value) -> bool
    decreases path.len(),
{
    if path.len() == 0 {
        false
    } else {
        &&& ns_keys(m) == seq![path[0]]
        &&& if path.len() == 1 {
            ns_lookup(m, path[0]) == Some(value)
        } else {
            match ns_lookup(m, path[0]) {
                Option::Some(v) => match v {
                    Value::Namespace(sub) => ns_chain(sub, path.drop_first(), value),
                    _ => false,
                },
                Option::None => false,
            }
        }
    }
}

/// How an insert changes a namespace: along the path every other child is
/// untouched, the path's own child keeps its position or is appended, and
/// at the path's end the value stands; a missing inner segment grows a
/// fresh chain.
pub open spec fn ns_inserted(old: Namespace, new: Namespace, path: Seq<Seq<char>>, value: Value) -> bool
    decreases path.len(),
{
    if path.len() == 0 {
        new == old
    } else {
        &&& forall|k: Seq<char>| k != path[0] ==> #[trigger] ns_lookup(new, k) == ns_lookup(old, k)
        &&& (ns_lookup(old, path[0]) is Some ==> ns_keys(new) == ns_keys(old))
        &&& (ns_lookup(old, path[0]) is None ==> ns_keys(new) == ns_keys(old).push(path[0]))
        &&& if path.len() == 1 {
            ns_lookup(new, path[0]) == Some(value)
        } else {
            match ns_lookup(old, path[0]) {
                Option::Some(v) => match v {
                    Value::Namespace(sub) => match ns_lookup(new, path[0]) {
                        Option::Some(nv) => match nv {
                            Value::Namespace(nsub) => ns_inserted(
                                sub,
                                nsub,
                                path.drop_first(),
                                value,
                            ),
                            _ => false,
                        },
                        Option::None => false,
                    },
                    _ => true,
                },
                Option::None => match ns_lookup(new, path[0]) {
                    Option::Some(nv) => match nv {
                        Value::Namespace(nsub) => ns_chain(nsub, path.drop_first(), value),
                        _ => false,
                    },
                    Option::None => false,
                },
            }
        }
    }
}

/// Replacing the value of entry `i`, keeping its name, moves no lookup of
/// any other name, and answers lookups of that name when `i` is its first
/// entry.
proof fn lemma_entries_get_update(a: Seq<(String, Value)>, b: Seq<(String, Value)>, i: int)
    requires
        0 <= i < a.len(),
        b.len() == a.len(),
        forall|j: int| 0 <= j < a.len() && j != i ==> a[j] == #[trigger] b[j],
        b[i].0 == a[i].0,
    ensures
        forall|k: Seq<char>|
            k != a[i].0@ ==> #[trigger] entries_get_v(b, k) == entries_get_v(a, k),
        (forall|j: int| 0 <= j < i ==> (#[trigger] a[j]).0@ != a[i].0@) ==> entries_get_v(
            b,
            a[i].0@,
        ) == Some(b[i].1),
    decreases a.len(),
{
    if a.len() > 0 {
        if i == 0 {
            assert(b.drop_first() =~= a.drop_first());
        } else {
            assert(b[0] == a[0]);
            assert forall|j: int|
                0 <= j < a.drop_first().len() && j != i - 1 implies a.drop_first()[j]
                == #[trigger] b.drop_first()[j] by {
                assert(a.drop_first()[j] == a[j + 1]);
                assert(b.drop_first()[j] == b[j + 1]);
            }
            assert(b.drop_first()[i - 1].0 == a.drop_first()[i - 1].0) by {
                assert(a.drop_first()[i - 1] == a[i]);
                assert(b.drop_first()[i - 1] == b[i]);
            }
            lemma_entries_get_update(a.drop_first(), b.drop_first(), i - 1);
            assert forall|k: Seq<char>| k != a[i].0@ implies #[trigger] entries_get_v(b, k)
                == entries_get_v(a, k) by {
                assert(a.drop_first()[i - 1] == a[i]);
                assert(entries_get_v(a, k) == (if a[0].0@ == k {
                    Some(a[0].1)
                } else {
                    entries_get_v(a.drop_first(), k)
                }));
                assert(entries_get_v(b, k) == (if b[0].0@ == k {
                    Some(b[0].1)
                } else {
                    entries_get_v(b.drop_first(), k)
                }));
                assert(entries_get_v(b.drop_first(), k) == entries_get_v(a.drop_first(), k));
            }
            if forall|j: int| 0 <= j < i ==> (#[trigger] a[j]).0@ != a[i].0@ {
                assert(a[0].0@ != a[i].0@);
                assert forall|j: int| 0 <= j < i - 1 implies (#[trigger] a.drop_first()[j]).0@
                    != a.drop_first()[i - 1].0@ by {
                    assert(a.drop_first()[j] == a[j + 1]);
                    assert(a.drop_first()[i - 1] == a[i]);
                }
                assert(a.drop_first()[i - 1] == a[i]);
                assert(b.drop_first()[i - 1] == b[i]);
            }
        }
    }
}

/// Appending an entry leaves every earlier name's lookup unchanged, and
/// answers the new name where it was absent.
proof fn lemma_entries_get_push(a: Seq<(String, Value)>, e: (String, Value))
    ensures
        forall|k: Seq<char>|
            k != e.0@ ==> #[trigger] entries_get_v(a.push(e), k) == entries_get_v(a, k),
        entries_get_v(a, e.0@) is None ==> entries_get_v(a.push(e), e.0@) == Some(e.1),
        entries_get_v(a, e.0@) is Some ==> entries_get_v(a.push(e), e.0@) == entries_get_v(
            a,
            e.0@,
        ),
    decreases a.len(),
{
    if a.len() == 0 {
        assert(a.push(e)[0] == e);
        assert(a.push(e).drop_first() =~= Seq::<(String, Value)>::empty());
        assert forall|k: Seq<char>| k != e.0@ implies #[trigger] entries_get_v(a.push(e), k)
            == entries_get_v(a, k) by {
            assert(entries_get_v(a.push(e), k) == entries_get_v(a.push(e).drop_first(), k));
            assert(entries_get_v(a.push(e).drop_first(), k) is None);
        }
    } else {
        assert(a.push(e)[0] == a[0]);
        assert(a.push(e).drop_first() =~= a.drop_first().push(e));
        lemma_entries_get_push(a.drop_first(), e);
        assert forall|k: Seq<char>| k != e.0@ implies #[trigger] entries_get_v(a.push(e), k)
            == entries_get_v(a, k) by {
            assert(entries_get_v(a.push(e), k) == (if a[0].0@ == k {
                Some(a[0].1)
            } else {
                entries_get_v(a.drop_first().push(e), k)
            }));
        }
        assert(entries_get_v(a.push(e), e.0@) == (if a[0].0@ == e.0@ {
            Some(a[0].1)
        } else {
            entries_get_v(a.drop_first().push(e), e.0@)
        }));
        assert(entries_get_v(a, e.0@) == (if a[0].0@ == e.0@ {
            Some(a[0].1)
        } else {
            entries_get_v(a.drop_first(), e.0@)
        }));
    }
}

/// Finds the first child of `m` named `key`.
fn ns_find(m: &Namespace, key: &str) -> (r: Option<usize>)
    ensures
        match r {
            Some(i) => {
                &&& i < m.0@.len()
                &&& m.0@[i as int].0@ == key@
                &&& entries_get_v(m.0@, key@) == Some(m.0@[i as int].1)
                &&& forall|j: int| 0 <= j < i ==> (#[trigger] m.0@[j]).0@ != key@
            },
            None => entries_get_v(m.0@, key@) is None,
        },
{
    let ghost es = m.0@;
    proof {
        assert(es.skip(0) =~= es);
    }
    let mut i: usize = 0;
    while i < m.0.len()
        invariant
            es == m.0@,
            i <= es.len(),
            forall|j: int| 0 <= j < i ==> (#[trigger] es[j]).0@ != key@,
            entries_get_v(es, key@) == entries_get_v(es.skip(i as int), key@),
        decreases es.len() - i,
    {
        proof {
            assert(es.skip(i as int)[0] == es[i as int]);
            assert(es.skip(i as int).drop_first() =~= es.skip(i as int + 1));
        }
        if crate::strutil::str_eq(m.0[i].0.as_str(), key) {
            return Some(i);
        }
        i = i + 1;
    }
    proof {
        assert(es.skip(es.len() as int) =~= Seq::empty());
    }
    None
}

/// Inserts `value` at the path `namespaces[idx ..]` below `m`.
fn insert_from(m: &mut Namespace, namespaces: &Vec<&str>, idx: usize, value: Value)
    requires
        idx <= namespaces@.len(),
        insert_ok(*old(m), path_of(namespaces@).skip(idx as int)),
    ensures
        ns_inserted(*old(m), *final(m), path_of(namespaces@).skip(idx as int), value),
    decreases namespaces@.len() - idx,
{
    let ghost path = path_of(namespaces@).skip(idx as int);
    if idx == namespaces.len() {
        proof {
            assert(path =~= Seq::<Seq<char>>::empty());
        }
        return ;
    }
    proof {
        assert(path[0] == namespaces@[idx as int]@);
        assert(path.drop_first() =~= path_of(namespaces@).skip(idx as int + 1));
    }
    let ns: &str = namespaces[idx];
    let found = ns_find(m, ns);
    if idx + 1 == namespaces.len() {
        match found {
            Some(i) => {
                let ghost pre = m.0@;
                let old_pair = m.0.remove(i);
                m.0.insert(i, (old_pair.0, value));
                proof {
                    assert(m.0@ =~= pre.update(i as int, (old_pair.0, value)));
                    lemma_entries_get_update(pre, m.0@, i as int);
                    assert(ns_keys(*m) =~= ns_keys(*old(m)));
                }
            },
            None => {
                let ghost pre = m.0@;
                let e = (String::from_str(ns), value);
                proof {
                    lemma_entries_get_push(pre, e);
                    assert((pre.push(e)).map_values(|q: (String, Value)| q.0@) =~= pre.map_values(
                        |q: (String, Value)| q.0@,
                    ).push(e.0@));
                }
                m.0.push(e);
            },
        }
    } else {
        match found {
            Some(i) => {
                let ghost pre = m.0@;
                let mut entry = m.0.remove(i);
                match &mut entry.1 {
                    Value::Namespace(sub) => {
                        insert_from(sub, namespaces, idx + 1, value);
                    },
                    _ => {
                        proof {
                            assert(false);
                        }
                    },
                }
                m.0.insert(i, entry);
                proof {
                    assert(m.0@ =~= pre.update(i as int, (pre[i as int].0, entry.1)));
                    lemma_entries_get_update(pre, m.0@, i as int);
                    assert(ns_keys(*m) =~= ns_keys(*old(m)));
                }
            },
            None => {
                let ghost pre = m.0@;
                let mut sub = Namespace(Vec::new());
                let ghost emp = sub;
                insert_from(&mut sub, namespaces, idx + 1, value);
                let e = (String::from_str(ns), Value::Namespace(sub));
                proof {
                    lemma_entries_get_push(pre, e);
                    assert((pre.push(e)).map_values(|q: (String, Value)| q.0@) =~= pre.map_values(
                        |q: (String, Value)| q.0@,
                    ).push(e.0@));
                    // the fresh subtree is exactly the remaining chain
                    let rest = path.drop_first();
                    assert(ns_keys(emp) =~= Seq::<Seq<char>>::empty());
                    assert(ns_inserted(emp, e.1->Namespace_0, rest, value));
                    assert(ns_chain(e.1->Namespace_0, rest, value));
                }
                m.0.push(e);
            },
        }
    }
}

impl Namespace {
    /// Inserts `value` at the dotted path `namespaces`: missing inner
    /// namespaces are created, an existing binding of the full path is
    /// replaced in place, and an empty path changes nothing.
    pub fn insert(&mut self, namespaces: Vec<&str>, value: Value)
        requires
            insert_ok(*old(self), path_of(namespaces@)),
        ensures
            ns_inserted(*old(self), *final(self), path_of(namespaces@), value),
    {
        proof {
            assert(path_of(namespaces@).skip(0) =~= path_of(namespaces@));
        }
        insert_from(self, &namespaces, 0, value)
    }
}

/// The Pascal-cased form of a name, as the outside case converter renders
/// it.
pub uninterp spec fn pascal_of(s: Seq<char>) -> Seq<char>;

/// Relies on convert_case's `to_case` with the Pascal case: the rendering
/// depends on the characters of the name alone.
#[verifier::external_body]
fn to_pascal(s: &str) -> (r: String)
    ensures
        r@ == pascal_of(s@),
{
    s.to_case(convert_case::Case::Pascal)
}

/// The debug rendering of a list of strings, as std's `{:?}` formatting
/// produces it.
pub uninterp spec fn vec_debug_of(ss: Seq<Seq<char>>) -> Seq<char>;

/// Relies on std's `Debug` formatting of `Vec<String>`: the rendering
/// depends on the strings alone.
#[verifier::external_body]
fn vec_debug(v: &Vec<String>) -> (r: String)
    ensures
        r@ == vec_debug_of(v.deep_view()),
{
    format!("{:?}", v)
}

/// A string wrapped in double quotes, as the generator emits literals.
pub open spec fn quoted(s: Seq<char>) -> Seq<char> {
    "\""@ + s + "\""@
}

/// The generated accessor for one literal message.
pub open spec fn singular_struct_text(name: Seq<char>, msg: Seq<char>) -> Seq<char> {
    "\n            pub fn "@ + name + "(&self"@ + args_text(captures_from(msg, 0))
        + ") -> String {\n                self."@ + name + reps_text(captures_from(msg, 0))
        + "\n            }\n            "@
}

/// The generated accessor for one pluralized message: its parameters come
/// from the variant with the most captures, the last such variant.
pub open spec fn plural_struct_text(name: Seq<char>, msgs: Seq<Seq<char>>) -> Seq<char>
    recommends
        msgs.len() >= 1,
{
    let m = msgs[best_idx(msgs, msgs.len() as int)];
    "\n            pub fn "@ + name + "(&self, num: &usize"@ + args_text(captures_from(m, 0))
        + ") -> String {\n                let i = message_index(&self."@ + name
        + ".len(), num);\n                self."@ + name + "[i]"@ + reps_text(captures_from(m, 0))
        + "\n            }\n            "@
}

/// Every pluralized leaf under the entries carries at least one variant.
pub open spec fn values_ok(entries: Seq<(String, Value)>) -> bool
    decreases entries,
{
    if entries.len() == 0 {
        true
    } else {
        let head_ok = match entries[0].1 {
            Value::Singular(_) => true,
            Value::Plural(p) => p.0@.len() >= 1,
            Value::Namespace(sub) => values_ok(sub.0@),
        };
        head_ok && values_ok(entries.drop_first())
    }
}

/// The three parts the schema synthesis accumulates over an entry list:
/// the field declarations, the accessor bodies, and the texts of the
/// nested composite types.
pub open spec fn ns_struct_fields(entries: Seq<(String, Value)>) -> (Seq<char>, Seq<char>, Seq<
    char,
>)
    decreases entries, 1int,
{
    if entries.len() == 0 {
        (Seq::empty(), Seq::empty(), Seq::empty())
    } else {
        let key = entries[0].0@;
        let head: (Seq<char>, Seq<char>, Seq<char>) = match entries[0].1 {
            Value::Namespace(sub) => (
                "pub "@ + key + ": "@ + pascal_of(key) + ",\n"@,
                Seq::empty(),
                ns_struct_text(sub, key),
            ),
            Value::Singular(sg) => (
                "pub "@ + key + ": &'static str,\n"@,
                singular_struct_text(key, sg.0@),
                Seq::empty(),
            ),
            Value::Plural(pl) => (
                "pub "@ + key + ": Vec<&'static str>,\n"@,
                plural_struct_text(key, strs_view(pl.0@)),
                Seq::empty(),
            ),
        };
        let rest = ns_struct_fields(entries.drop_first());
        (head.0 + rest.0, head.1 + rest.1, head.2 + rest.2)
    }
}

/// The generated composite type for one namespace: its struct, its impl
/// with one accessor per leaf child, and the types of its nested
/// namespaces.
pub open spec fn ns_struct_text(m: Namespace, name: Seq<char>) -> Seq<char>
    decreases m, 2int,
{
    let parts = ns_struct_fields(m.0@);
    "\n            pub struct "@ + pascal_of(name) + " {\n                "@ + parts.0
        + "\n            }\n\n            impl "@ + pascal_of(name) + " {\n                "@
        + parts.1 + "\n            }\n\n            "@ + parts.2 + "\n            "@
}

/// Whether value synthesis can run: wherever the emitted value is a
/// namespace, the source's value at that key must be one too.
pub open spec fn code_ok(tgt: Namespace, src: Seq<(String, Value)>) -> bool
    decreases src,
{
    if src.len() == 0 {
        true
    } else {
        let key = src[0].0@;
        let value = match ns_lookup(tgt, key) {
            Option::Some(v) => v,
            Option::None => src[0].1,
        };
        let head_ok = match value {
            Value::Namespace(g) => match src[0].1 {
                Value::Namespace(ss) => code_ok(g, ss.0@),
                _ => false,
            },
            _ => true,
        };
        head_ok && code_ok(tgt, src.drop_first())
    }
}

/// The generated field initializers for one namespace value: the fields
/// are exactly the source's keys, in source order; each takes the target's
/// own value where the target defines the key, the source's otherwise.
pub open spec fn code_fields(tgt: Namespace, src: Seq<(String, Value)>) -> Seq<char>
    decreases src, 1int,
{
    if src.len() == 0 {
        Seq::empty()
    } else {
        let key = src[0].0@;
        let value = match ns_lookup(tgt, key) {
            Option::Some(v) => v,
            Option::None => src[0].1,
        };
        let code = match value {
            Value::Namespace(g) => match src[0].1 {
                Value::Namespace(ss) => ns_code_text(g, ss.0@, key),
                _ => Seq::empty(),
            },
            Value::Singular(g) => quoted(g.0@),
            Value::Plural(g) => "vec!"@ + vec_debug_of(strs_view(g.0@)),
        };
        key + ": "@ + code + ",\n"@ + code_fields(tgt, src.drop_first())
    }
}

/// The generated value literal for one namespace, driven by the source's
/// entry list.
pub open spec fn ns_code_text(tgt: Namespace, src: Seq<(String, Value)>, name: Seq<char>) -> Seq<
    char,
>
    decreases src, 2int,
{
    pascal_of(name) + " {\n"@ + code_fields(tgt, src) + "}"@
}

/// Schema-driven iteration. Two targets that agree on every key of the
/// source produce the same value literal: a target's binding at a key the
/// source does not define never reaches the output.
pub proof fn lemma_schema_driven(
    t1: Namespace,
    t2: Namespace,
    src: Seq<(String, Value)>,
    name: Seq<char>,
)
    requires
        forall|j: int|
            0 <= j < src.len() ==> ns_lookup(t1, (#[trigger] src[j]).0@) == ns_lookup(
                t2,
                src[j].0@,
            ),
    ensures
        code_fields(t1, src) == code_fields(t2, src),
        ns_code_text(t1, src, name) == ns_code_text(t2, src, name),
    decreases src.len(),
{
    if src.len() > 0 {
        assert forall|j: int|
            0 <= j < src.drop_first().len() implies ns_lookup(
            t1,
            (#[trigger] src.drop_first()[j]).0@,
        ) == ns_lookup(t2, src.drop_first()[j].0@) by {
            assert(src.drop_first()[j] == src[j + 1]);
        }
        lemma_schema_driven(t1, t2, src.drop_first(), name);
        assert(ns_lookup(t1, src[0].0@) == ns_lookup(t2, src[0].0@));
        let key = src[0].0@;
        let v1 = match ns_lookup(t1, key) {
            Option::Some(v) => v,
            Option::None => src[0].1,
        };
        let v2 = match ns_lookup(t2, key) {
            Option::Some(v) => v,
            Option::None => src[0].1,
        };
        assert(v1 == v2);
        assert(code_fields(t1, src.drop_first()) == code_fields(t2, src.drop_first()));
        assert(code_fields(t1, src) == code_fields(t2, src));
    }
}

impl Singular {
    /// The generated accessor for this literal message.
    pub fn generate_struct(&self, name: &str) -> (r: String)
        ensures
            r@ == singular_struct_text(name@, self.0@),
    {
        let parts = parse_args(&self.0);
        let mut r = String::from_str("\n            pub fn ");
        r.append(name);
        r.append("(&self");
        r.append(parts.0.as_str());
        r.append(") -> String {\n                self.");
        r.append(name);
        r.append(parts.1.as_str());
        r.append("\n            }\n            ");
        r
    }

    /// The generated literal for this message: the text in double quotes.
    pub fn generate_code(&self) -> (r: String)
        ensures
            r@ == quoted(self.0@),
    {
        let mut r = String::from_str("\"");
        r.append(self.0.as_str());
        r.append("\"");
        r
    }
}

impl Plural {
    /// The generated accessor for this pluralized message: the count picks
    /// the variant, and the parameters come from the variant with the most
    /// captures.
    pub fn generate_struct(&self, name: &str) -> (r: String)
        requires
            self.0@.len() >= 1,
        ensures
            r@ == plural_struct_text(name@, strs_view(self.0@)),
    {
        let mi = max_args_index(&self.0);
        let parts = parse_args(&self.0[mi]);
        proof {
            assert(self.0@[mi as int]@ == strs_view(self.0@)[mi as int]);
        }
        let mut r = String::from_str("\n            pub fn ");
        r.append(name);
        r.append("(&self, num: &usize");
        r.append(parts.0.as_str());
        r.append(") -> String {\n                let i = message_index(&self.");
        r.append(name);
        r.append(".len(), num);\n                self.");
        r.append(name);
        r.append("[i]");
        r.append(parts.1.as_str());
        r.append("\n            }\n            ");
        r
    }

    /// The generated literal for this message: a vector of its variants.
    pub fn generate_code(&self) -> (r: String)
        ensures
            r@ == "vec!"@ + vec_debug_of(strs_view(self.0@)),
    {
        let mut r = String::from_str("vec!");
        let d = vec_debug(&self.0);
        proof {
            assert(self.0.deep_view() =~= strs_view(self.0@));
        }
        r.append(d.as_str());
        r
    }
}

/// The schema synthesis over the entries of `m` from position `idx` on.
fn gen_struct_fields(m: &Namespace, idx: usize) -> (r: (String, String, String))
    requires
        idx <= m.0@.len(),
        values_ok(m.0@.skip(idx as int)),
    ensures
        (r.0@, r.1@, r.2@) == ns_struct_fields(m.0@.skip(idx as int)),
    decreases m.0@, m.0@.len() - idx + 3,
{
    let ghost rest = m.0@.skip(idx as int);
    if idx == m.0.len() {
        proof {
            assert(rest =~= Seq::<(String, Value)>::empty());
        }
        return (String::new(), String::new(), String::new());
    }
    proof {
        assert(rest[0] == m.0@[idx as int]);
        assert(rest.drop_first() =~= m.0@.skip(idx as int + 1));
    }
    let key: &str = m.0[idx].0.as_str();
    let head: (String, String, String) = match &m.0[idx].1 {
        Value::Namespace(sub) => {
            let mut s = String::from_str("pub ");
            s.append(key);
            s.append(": ");
            let p = to_pascal(key);
            s.append(p.as_str());
            s.append(",\n");
            let nested = gen_struct_text(sub, key);
            (s, String::new(), nested)
        },
        Value::Singular(sg) => {
            let mut s = String::from_str("pub ");
            s.append(key);
            s.append(": &'static str,\n");
            (s, sg.generate_struct(key), String::new())
        },
        Value::Plural(pl) => {
            let mut s = String::from_str("pub ");
            s.append(key);
            s.append(": Vec<&'static str>,\n");
            (s, pl.generate_struct(key), String::new())
        },
    };
    let tail = gen_struct_fields(m, idx + 1);
    let r0 = head.0.concat(tail.0.as_str());
    let r1 = head.1.concat(tail.1.as_str());
    let r2 = head.2.concat(tail.2.as_str());
    (r0, r1, r2)
}

/// The generated composite type for `m`, named after `name`.
fn gen_struct_text(m: &Namespace, name: &str) -> (r: String)
    requires
        values_ok(m.0@),
    ensures
        r@ == ns_struct_text(*m, name@),
    decreases m.0@, m.0@.len() + 4,
{
    proof {
        assert(m.0@.skip(0) =~= m.0@);
    }
    let parts = gen_struct_fields(m, 0);
    let p = to_pascal(name);
    let mut r = String::from_str("\n            pub struct ");
    r.append(p.as_str());
    r.append(" {\n                ");
    r.append(parts.0.as_str());
    r.append("\n            }\n\n            impl ");
    r.append(p.as_str());
    r.append(" {\n                ");
    r.append(parts.1.as_str());
    r.append("\n            }\n\n            ");
    r.append(parts.2.as_str());
    r.append("\n            ");
    r
}

/// The value synthesis over the source entries from position `idx` on,
/// against the target `tgt`.
fn gen_code_fields(tgt: &Namespace, src: &Vec<(String, Value)>, idx: usize) -> (r: String)
    requires
        idx <= src@.len(),
        code_ok(*tgt, src@.skip(idx as int)),
    ensures
        r@ == code_fields(*tgt, src@.skip(idx as int)),
    decreases src@, src@.len() - idx + 3,
{
    let ghost rest = src@.skip(idx as int);
    if idx == src.len() {
        proof {
            assert(rest =~= Seq::<(String, Value)>::empty());
        }
        return String::new();
    }
    proof {
        assert(rest[0] == src@[idx as int]);
        assert(rest.drop_first() =~= src@.skip(idx as int + 1));
    }
    let key: &str = src[idx].0.as_str();
    let value: &Value = match ns_find(tgt, key) {
        Some(i) => &tgt.0[i].1,
        None => &src[idx].1,
    };
    let code: String = match value {
        Value::Namespace(g) => {
            match &src[idx].1 {
                Value::Namespace(ss) => gen_code_text(g, ss, key),
                _ => vstd::pervasive::unreached(),
            }
        },
        Value::Singular(g) => g.generate_code(),
        Value::Plural(g) => g.generate_code(),
    };
    let mut r = String::from_str(key);
    r.append(": ");
    r.append(code.as_str());
    r.append(",\n");
    let tail = gen_code_fields(tgt, src, idx + 1);
    r.concat(tail.as_str())
}

/// The generated value literal for `tgt`, driven by the source `src`.
fn gen_code_text(tgt: &Namespace, src: &Namespace, name: &str) -> (r: String)
    requires
        code_ok(*tgt, src.0@),
    ensures
        r@ == ns_code_text(*tgt, src.0@, name@),
    decreases src.0@, src.0@.len() + 4,
{
    proof {
        assert(src.0@.skip(0) =~= src.0@);
    }
    let p = to_pascal(name);
    let mut r = p.concat(" {\n");
    let fields = gen_code_fields(tgt, &src.0, 0);
    r.append(fields.as_str());
    r.append("}");
    r
}

impl Namespace {
    /// The generated composite types for this namespace and all nested
    /// ones, named after `name`.
    pub fn generate_struct(&self, name: &str) -> (r: String)
        requires
            values_ok(self.0@),
        ensures
            r@ == ns_struct_text(*self, name@),
    {
        gen_struct_text(self, name)
    }

    /// The generated value literal for this namespace: the emitted fields
    /// are exactly the source's keys, in source order, each holding this
    /// namespace's own value where it defines the key and the source's
    /// value where it does not. Without a source, this namespace drives
    /// its own iteration.
    pub fn generate_code(&self, name: &str, source: Option<&Namespace>) -> (r: String)
        requires
            match source {
                Some(s) => code_ok(*self, s.0@),
                None => code_ok(*self, self.0@),
            },
        ensures
            r@ == match source {
                Some(s) => ns_code_text(*self, s.0@, name@),
                None => ns_code_text(*self, self.0@, name@),
            },
    {
        match source {
            Some(s) => gen_code_text(self, s, name),
            None => gen_code_text(self, self, name),
        }
    }
}

/// What generation produces: the schema text, and one value literal per
/// locale. Rendering these into a final program text is left to an
/// outside template engine.
pub struct GeneratedOutput {
    pub structs: String,
    pub codes: Vec<(String, String)>,
}

/// The source locale's namespace inside the root tree.
pub open spec fn source_ns(rm: Namespace, sl: Seq<char>) -> Namespace {
    ns_of(ns_lookup(rm, sl).get_Some_0())
}

/// The entries of the root tree other than the source locale's, in order.
pub open spec fn rest_locales(entries: Seq<(String, Value)>, sl: Seq<char>) -> Seq<
    (String, Value),
> {
    entries.filter(|e: (String, Value)| e.0@ != sl)
}

/// Generates the schema from the source locale's tree shape and one value
/// literal per locale: the source locale's first, then every other locale
/// in tree order, each driven by the source's keys.
#[verifier::loop_isolation(false)]
pub fn generate(source_language: &str, root_map: &Namespace) -> (r: GeneratedOutput)
    requires
        ns_lookup(*root_map, source_language@) is Some,
        ns_lookup(*root_map, source_language@).get_Some_0() is Namespace,
        values_ok(source_ns(*root_map, source_language@).0@),
        forall|j: int|
            0 <= j < root_map.0@.len() ==> (#[trigger] root_map.0@[j]).1 is Namespace && code_ok(
                ns_of(root_map.0@[j].1),
                source_ns(*root_map, source_language@).0@,
            ),
    ensures
        r.structs@ == ns_struct_text(source_ns(*root_map, source_language@), "Root"@),
        ({
            let srcm = source_ns(*root_map, source_language@);
            let rest = rest_locales(root_map.0@, source_language@);
            &&& r.codes@.len() == 1 + rest.len()
            &&& r.codes@[0].0@ == source_language@
            &&& r.codes@[0].1@ == ns_code_text(srcm, srcm.0@, "Root"@)
            &&& forall|i: int|
                0 <= i < rest.len() ==> (#[trigger] r.codes@[i + 1]).0@ == rest[i].0@
                    && r.codes@[i + 1].1@ == ns_code_text(ns_of(rest[i].1), srcm.0@, "Root"@)
        }),
{
    let ghost sl = source_language@;
    let found = ns_find(root_map, source_language);
    let si = match found {
        Some(i) => i,
        None => vstd::pervasive::unreached(),
    };
    let srcm: &Namespace = match &root_map.0[si].1 {
        Value::Namespace(s) => s,
        _ => vstd::pervasive::unreached(),
    };
    let structs = srcm.generate_struct("Root");
    let mut codes: Vec<(String, String)> = Vec::new();
    codes.push((String::from_str(source_language), gen_code_text(srcm, srcm, "Root")));
    let mut j: usize = 0;
    proof {
        reveal(Seq::filter);
        assert(root_map.0@.take(0) =~= Seq::<(String, Value)>::empty());
        assert(rest_locales(root_map.0@.take(0), sl) =~= Seq::<(String, Value)>::empty());
    }
    while j < root_map.0.len()
        invariant
            j <= root_map.0@.len(),
            codes@.len() == 1 + rest_locales(root_map.0@.take(j as int), sl).len(),
            codes@[0].0@ == sl,
            codes@[0].1@ == ns_code_text(*srcm, srcm.0@, "Root"@),
            *srcm == source_ns(*root_map, sl),
            forall|i: int|
                0 <= i < rest_locales(root_map.0@.take(j as int), sl).len()
                    ==> (#[trigger] codes@[i + 1]).0@ == rest_locales(root_map.0@.take(j as int), sl)[i].0@ && codes@[i + 1].1@ == ns_code_text(
                    ns_of(rest_locales(root_map.0@.take(j as int), sl)[i].1),
                    srcm.0@,
                    "Root"@,
                ),
        decreases root_map.0@.len() - j,
    {
        let ghost e = root_map.0@[j as int];
        proof {
            reveal(Seq::filter);
            assert(root_map.0@.take(j + 1).drop_last() =~= root_map.0@.take(j as int));
            assert(root_map.0@.take(j + 1).last() == e);
        }
        let key: &str = root_map.0[j].0.as_str();
        if !crate::strutil::str_eq(key, source_language) {
            let tgt: &Namespace = match &root_map.0[j].1 {
                Value::Namespace(t) => t,
                _ => vstd::pervasive::unreached(),
            };
            let code = gen_code_text(tgt, srcm, "Root");
            proof {
                assert(rest_locales(root_map.0@.take(j + 1), sl) == rest_locales(
                    root_map.0@.take(j as int),
                    sl,
                ).push(e));
            }
            codes.push((root_map.0[j].0.clone(), code));
        } else {
            proof {
                assert(rest_locales(root_map.0@.take(j + 1), sl) == rest_locales(
                    root_map.0@.take(j as int),
                    sl,
                ));
            }
        }
        j = j + 1;
    }
    proof {
        assert(root_map.0@.take(root_map.0@.len() as int) =~= root_map.0@);
    }
    GeneratedOutput { structs, codes }
}

} // verus!
