use vstd::prelude::*;

verus! {

/// One placeholder occurrence inside a message text: the half-open range of
/// character positions `start .. end` that the marker occupies, and the
/// zero-based index of the substitution argument that replaces it.
#[derive(Clone, Copy, PartialEq, Eq, Structural, Debug)]
pub struct Span {
    pub index: usize,
    pub start: usize,
    pub end: usize,
}

impl Span {
    /// The span as a triple of unbounded integers `(index, start, end)`,
    /// the form the scanning specifications below use.
    pub open spec fn model(self) -> (int, int, int) {
        (self.index as int, self.start as int, self.end as int)
    }
}

/// The models of a list of spans.
pub open spec fn spans_model(spans: Seq<Span>) -> Seq<(int, int, int)> {
    spans.map_values(|sp: Span| sp.model())
}

/// Whether `c` is a decimal digit.
pub open spec fn is_digit(c: char) -> bool {
    '0' as int <= c as int && c as int <= '9' as int
}

/// Number of consecutive decimal digits of `s` starting at position `i`.
pub open spec fn digit_run(s: Seq<char>, i: int) -> int
    decreases s.len() - i,
{
    if i < 0 || i >= s.len() || !is_digit(s[i]) {
        0
    } else {
        1 + digit_run(s, i + 1)
    }
}

/// The value of the decimal digits `s[i .. j]`, read most significant first.
pub open spec fn digits_val(s: Seq<char>, i: int, j: int) -> int
    decreases j - i,
{
    if j <= i {
        0
    } else {
        digits_val(s, i, j - 1) * 10 + (s[j - 1] as int - '0' as int)
    }
}

/// Whether an explicit-index placeholder starts at position `p` of `s`:
/// an opening brace, one or more digits, and a closing brace right after
/// the digits.
pub open spec fn explicit_match_at(s: Seq<char>, p: int) -> bool {
    &&& 0 <= p < s.len()
    &&& s[p] == '{'
    &&& digit_run(s, p + 1) >= 1
    &&& p + 1 + digit_run(s, p + 1) < s.len()
    &&& s[p + 1 + digit_run(s, p + 1)] == '}'
}

/// Position one past the closing brace of the placeholder starting at `p`.
pub open spec fn explicit_end(s: Seq<char>, p: int) -> int {
    p + 2 + digit_run(s, p + 1)
}

/// The substitution index written inside the placeholder starting at `p`,
/// clamped to the machine word so that parsing is total.
pub open spec fn explicit_index(s: Seq<char>, p: int) -> int {
    vstd::math::min(digits_val(s, p + 1, p + 1 + digit_run(s, p + 1)), usize::MAX as int)
}

/// The spans of all explicit-index placeholders of `s` at or after position
/// `i`, in text order: the scan takes the leftmost match and resumes right
/// after its closing brace.
pub open spec fn explicit_spans_from(s: Seq<char>, i: int) -> Seq<(int, int, int)>
    decreases s.len() - i,
{
    if i < 0 || i >= s.len() {
        Seq::empty()
    } else if explicit_match_at(s, i) {
        seq![(explicit_index(s, i), i, explicit_end(s, i))] + explicit_spans_from(
            s,
            explicit_end(s, i),
        )
    } else {
        explicit_spans_from(s, i + 1)
    }
}

/// Whether an implicit placeholder — an empty pair of braces — starts at
/// position `p` of `s`.
pub open spec fn implicit_match_at(s: Seq<char>, p: int) -> bool {
    &&& 0 <= p
    &&& p + 1 < s.len()
    &&& s[p] == '{'
    &&& s[p + 1] == '}'
}

/// The spans of all implicit placeholders of `s` at or after position `i`,
/// in text order, the next one receiving substitution index `k`.
pub open spec fn implicit_spans_from(s: Seq<char>, i: int, k: int) -> Seq<(int, int, int)>
    decreases s.len() - i,
{
    if i < 0 || i + 1 >= s.len() {
        Seq::empty()
    } else if implicit_match_at(s, i) {
        seq![(k, i, i + 2)] + implicit_spans_from(s, i + 2, k + 1)
    } else {
        implicit_spans_from(s, i + 1, k)
    }
}

/// Spans that splicing can rely on: each within the text of length `len`,
/// non-empty, in ascending order without overlap, with a non-negative
/// substitution index.
pub open spec fn spans_wf(spans: Seq<(int, int, int)>, len: int) -> bool {
    &&& forall|j: int|
        0 <= j < spans.len() ==> {
            &&& 0 <= (#[trigger] spans[j]).0
            &&& 0 <= spans[j].1 < spans[j].2 <= len
        }
    &&& forall|j: int| 0 <= j < spans.len() - 1 ==> (#[trigger] spans[j]).2 <= spans[j + 1].1
}

/// The text that substitution produces: each span's character range is
/// replaced by the replacement its index picks, and the rest of the text is
/// kept. Spans are spliced from the last to the first, which leaves the
/// positions of the spans still to splice untouched.
pub open spec fn spliced(text: Seq<char>, spans: Seq<(int, int, int)>, reps: Seq<Seq<char>>) -> Seq<
    char,
>
    decreases spans.len(),
{
    if spans.len() == 0 {
        text
    } else {
        let sp = spans.last();
        spliced(text.take(sp.1), spans.drop_last(), reps) + reps[sp.0] + text.skip(sp.2)
    }
}

/// The views of a list of replacement strings.
pub open spec fn reps_model(reps: Seq<&str>) -> Seq<Seq<char>> {
    reps.map_values(|r: &str| r@)
}

/// Every position of the digit run starting at `a` holds a digit, and the
/// run stays within the text.
proof fn lemma_digit_run_chars(s: Seq<char>, a: int)
    requires
        0 <= a <= s.len(),
    ensures
        a + digit_run(s, a) <= s.len(),
        forall|t: int| 0 <= t < digit_run(s, a) ==> is_digit(#[trigger] s[a + t]),
    decreases s.len() - a,
{
    if a < s.len() && is_digit(s[a]) {
        lemma_digit_run_chars(s, a + 1);
        assert forall|t: int| 0 <= t < digit_run(s, a) implies is_digit(#[trigger] s[a + t]) by {
            if t > 0 {
                assert(is_digit(s[(a + 1) + (t - 1)]));
            }
        }
    }
}

/// The value of a run of digits is non-negative.
proof fn lemma_digits_val_nonneg(s: Seq<char>, i: int, j: int)
    requires
        forall|t: int| i <= t < j ==> is_digit(#[trigger] s[t]),
    ensures
        digits_val(s, i, j) >= 0,
    decreases j - i,
{
    if j > i {
        lemma_digits_val_nonneg(s, i, j - 1);
        vstd::arithmetic::mul::lemma_mul_inequality(0, digits_val(s, i, j - 1), 10);
    }
}

/// Counts the consecutive decimal digits of `text` starting at `from`.
fn scan_digit_run(text: &str, from: usize, len: usize) -> (r: usize)
    requires
        len == text@.len(),
        from <= len,
    ensures
        r == digit_run(text@, from as int),
        from + r <= len,
{
    let mut r: usize = 0;
    loop
        invariant_except_break
            len == text@.len(),
            from + r <= len,
            digit_run(text@, from as int) == r + digit_run(text@, (from + r) as int),
        ensures
            r == digit_run(text@, from as int),
            from + r <= len,
        decreases len - from - r,
    {
        if from + r < len {
            let c = text.get_char(from + r);
            let u = c as u32;
            if 48 <= u && u <= 57 {
                proof {
                    assert(is_digit(text@[(from + r) as int]));
                    assert(digit_run(text@, (from + r) as int) == 1 + digit_run(
                        text@,
                        (from + r) as int + 1,
                    ));
                }
                r = r + 1;
            } else {
                proof {
                    assert(!is_digit(text@[(from + r) as int]));
                    assert(digit_run(text@, (from + r) as int) == 0);
                }
                break ;
            }
        } else {
            proof {
                assert(digit_run(text@, (from + r) as int) == 0);
            }
            break ;
        }
    }
    r
}

/// Reads the decimal value of the digits `text[a .. a + r]`, clamping it to
/// the machine word.
fn digits_value_sat(text: &str, a: usize, r: usize, len: usize) -> (v: usize)
    requires
        len == text@.len(),
        a + r <= len,
        forall|t: int| 0 <= t < r ==> is_digit(#[trigger] text@[a + t]),
    ensures
        v == vstd::math::min(digits_val(text@, a as int, (a + r) as int), usize::MAX as int),
{
    let ghost s = text@;
    let mut v: usize = 0;
    let mut t: usize = 0;
    while t < r
        invariant
            len == s.len(),
            s == text@,
            a + r <= len,
            t <= r,
            forall|q: int| 0 <= q < r ==> is_digit(#[trigger] s[a + q]),
            v == vstd::math::min(digits_val(s, a as int, (a + t) as int), usize::MAX as int),
        decreases r - t,
    {
        let c = text.get_char(a + t);
        let d = (c as u32 - 48) as usize;
        proof {
            assert(is_digit(s[(a + t) as int]));
            assert(d == c as int - '0' as int);
            assert(0 <= d < 10);
            assert forall|q: int| a <= q < a + t implies is_digit(#[trigger] s[q]) by {
                assert(is_digit(s[a + (q - a)]));
            }
            lemma_digits_val_nonneg(s, a as int, (a + t) as int);
            assert(digits_val(s, a as int, (a + t + 1) as int) == digits_val(
                s,
                a as int,
                (a + t) as int,
            ) * 10 + d);
        }
        let ghost dv = digits_val(s, a as int, (a + t) as int);
        let ghost m = usize::MAX as int;
        if v > (usize::MAX - d) / 10 {
            proof {
                vstd::arithmetic::div_mod::lemma_fundamental_div_mod(m - d, 10);
                if dv <= m {
                    // v holds dv exactly; the next value would overflow
                    vstd::arithmetic::mul::lemma_mul_inequality((m - d) / 10 + 1, dv, 10);
                    assert(dv * 10 + d > m);
                } else {
                    vstd::arithmetic::mul::lemma_mul_inequality(m + 1, dv, 10);
                    assert(dv * 10 + d > m);
                }
            }
            v = usize::MAX;
        } else {
            proof {
                vstd::arithmetic::div_mod::lemma_fundamental_div_mod(m - d, 10);
                vstd::arithmetic::mul::lemma_mul_inequality(v as int, (m - d) / 10, 10);
                assert(v * 10 + d <= m);
                assert(dv == v);
            }
            v = v * 10 + d;
        }
        t = t + 1;
    }
    v
}

/// The explicit scan only finds spans inside the text, ascending and
/// non-overlapping, with non-negative indices, at or after position `i`.
proof fn lemma_explicit_spans_wf(s: Seq<char>, i: int)
    requires
        0 <= i,
    ensures
        spans_wf(explicit_spans_from(s, i), s.len() as int),
        forall|j: int|
            0 <= j < explicit_spans_from(s, i).len() ==> (#[trigger] explicit_spans_from(
                s,
                i,
            )[j]).1 >= i,
    decreases s.len() - i,
{
    if i >= s.len() {
    } else if explicit_match_at(s, i) {
        let e = explicit_end(s, i);
        lemma_explicit_spans_wf(s, e);
        lemma_digit_run_chars(s, i + 1);
        assert forall|q: int| i + 1 <= q < i + 1 + digit_run(s, i + 1) implies is_digit(
            #[trigger] s[q],
        ) by {
            assert(is_digit(s[(i + 1) + (q - (i + 1))]));
        }
        lemma_digits_val_nonneg(s, i + 1, i + 1 + digit_run(s, i + 1));
        let head = (explicit_index(s, i), i, e);
        let tail = explicit_spans_from(s, e);
        assert(explicit_spans_from(s, i) == seq![head] + tail);
        assert forall|j: int|
            0 <= j < explicit_spans_from(s, i).len() implies (#[trigger] explicit_spans_from(
            s,
            i,
        )[j]).1 >= i by {
            if j > 0 {
                assert((seq![head] + tail)[j] == tail[j - 1]);
            }
        }
        assert forall|j: int|
            0 <= j < explicit_spans_from(s, i).len() - 1 implies (#[trigger] explicit_spans_from(
            s,
            i,
        )[j]).2 <= explicit_spans_from(s, i)[j + 1].1 by {
            if j > 0 {
                assert((seq![head] + tail)[j] == tail[j - 1]);
                assert((seq![head] + tail)[j + 1] == tail[j]);
            } else {
                assert((seq![head] + tail)[1] == tail[0]);
            }
        }
    } else {
        lemma_explicit_spans_wf(s, i + 1);
    }
}

/// The implicit scan only finds spans inside the text, ascending and
/// non-overlapping, at or after position `i`, and numbers them upward from
/// `k` in text order.
proof fn lemma_implicit_spans_wf(s: Seq<char>, i: int, k: int)
    requires
        0 <= i,
        0 <= k,
    ensures
        spans_wf(implicit_spans_from(s, i, k), s.len() as int),
        forall|j: int|
            0 <= j < implicit_spans_from(s, i, k).len() ==> (#[trigger] implicit_spans_from(
                s,
                i,
                k,
            )[j]).1 >= i,
        forall|j: int|
            0 <= j < implicit_spans_from(s, i, k).len() ==> (#[trigger] implicit_spans_from(
                s,
                i,
                k,
            )[j]).0 == k + j,
    decreases s.len() - i,
{
    if i + 1 >= s.len() {
    } else if implicit_match_at(s, i) {
        lemma_implicit_spans_wf(s, i + 2, k + 1);
        let head = (k, i, i + 2);
        let tail = implicit_spans_from(s, i + 2, k + 1);
        assert(implicit_spans_from(s, i, k) == seq![head] + tail);
        assert(forall|j: int| 1 <= j < tail.len() + 1 ==> (seq![head] + tail)[j] == tail[j - 1]);
    } else {
        lemma_implicit_spans_wf(s, i + 1, k);
    }
}

/// Span ends of a well-formed span list never decrease.
proof fn lemma_span_end_le(spans: Seq<(int, int, int)>, len: int, p: int, q: int)
    requires
        spans_wf(spans, len),
        0 <= p <= q < spans.len(),
    ensures
        spans[p].2 <= spans[q].2,
    decreases q - p,
{
    if p < q {
        lemma_span_end_le(spans, len, p, q - 1);
        assert(spans[q - 1].2 <= spans[q].1);
    }
}

/// Splicing spans that all end before position `a` commutes with extending
/// the text beyond `a`: the extension is copied through unchanged.
proof fn lemma_spliced_extend(
    text: Seq<char>,
    spans: Seq<(int, int, int)>,
    reps: Seq<Seq<char>>,
    a: int,
    b: int,
)
    requires
        spans_wf(spans, a),
        0 <= a <= b <= text.len(),
    ensures
        spliced(text.take(b), spans, reps) == spliced(text.take(a), spans, reps) + text.subrange(
            a,
            b,
        ),
{
    if spans.len() == 0 {
        assert(spliced(text.take(b), spans, reps) =~= spliced(text.take(a), spans, reps)
            + text.subrange(a, b));
    } else {
        let sp = spans.last();
        assert(text.take(b).take(sp.1) =~= text.take(sp.1));
        assert(text.take(a).take(sp.1) =~= text.take(sp.1));
        assert(text.take(b).skip(sp.2) =~= text.take(a).skip(sp.2) + text.subrange(a, b));
        assert(spliced(text.take(b), spans, reps) =~= spliced(text.take(a), spans, reps)
            + text.subrange(a, b));
    }
}

/// A message: its text together with the spans of all its placeholders, in
/// text order.
pub struct Message {
    text: String,
    spans: Vec<Span>,
}

impl Message {
    /// The character sequence of the text.
    pub closed spec fn text_view(self) -> Seq<char> {
        self.text@
    }

    /// The placeholder spans, as integer triples.
    pub closed spec fn spans_view(self) -> Seq<(int, int, int)> {
        spans_model(self.spans@)
    }

    /// A message built from a text and a ready list of placeholder spans.
    pub fn new(text: String, spans: Vec<Span>) -> (m: Message)
        ensures
            m.text_view() == text@,
            m.spans_view() == spans_model(spans@),
    {
        Message { text, spans }
    }

    /// The spans fit the text and are in ascending order.
    pub open spec fn wf(self) -> bool {
        spans_wf(self.spans_view(), self.text_view().len() as int)
    }

    /// The largest substitution index any span uses is below `n`.
    pub open spec fn indices_below(self, n: int) -> bool {
        forall|j: int| 0 <= j < self.spans_view().len() ==> (#[trigger] self.spans_view()[j]).0 < n
    }

    /// Parses a message in the explicit-index form: each placeholder is an
    /// opening brace, the decimal substitution index, and a closing brace.
    pub fn parse_explicit(text: &str) -> (m: Message)
        ensures
            m.text_view() == text@,
            m.spans_view() == explicit_spans_from(text@, 0),
            m.wf(),
    {
        let ghost s = text@;
        let len = text.unicode_len();
        let mut spans: Vec<Span> = Vec::new();
        let mut i: usize = 0;
        while i < len
            invariant
                len == s.len(),
                s == text@,
                i <= len,
                explicit_spans_from(s, 0) == spans_model(spans@) + explicit_spans_from(
                    s,
                    i as int,
                ),
            decreases len - i,
        {
            let mut matched = false;
            if text.get_char(i) == '{' {
                let r = scan_digit_run(text, i + 1, len);
                if r >= 1 && i + 1 + r < len {
                    if text.get_char(i + 1 + r) == '}' {
                        proof {
                            lemma_digit_run_chars(s, i + 1);
                        }
                        let val = digits_value_sat(text, i + 1, r, len);
                        let end = i + 2 + r;
                        let sp = Span { index: val, start: i, end };
                        proof {
                            assert(explicit_match_at(s, i as int));
                            assert(explicit_spans_from(s, i as int) == seq![sp.model()]
                                + explicit_spans_from(s, end as int));
                            assert(spans_model(spans@.push(sp)) =~= spans_model(spans@) + seq![
                                sp.model(),
                            ]);
                            assert(explicit_spans_from(s, 0) =~= spans_model(spans@.push(sp))
                                + explicit_spans_from(s, end as int));
                        }
                        spans.push(sp);
                        i = end;
                        matched = true;
                    }
                }
            }
            if !matched {
                proof {
                    assert(!explicit_match_at(s, i as int));
                    assert(explicit_spans_from(s, i as int) == explicit_spans_from(s, i + 1));
                }
                i = i + 1;
            }
        }
        proof {
            assert(explicit_spans_from(s, i as int) =~= Seq::empty());
            assert(explicit_spans_from(s, 0) =~= spans_model(spans@));
            lemma_explicit_spans_wf(s, 0);
        }
        Message { text: String::from_str(text), spans }
    }

    /// Parses a message in the implicit-index form: each placeholder is an
    /// empty pair of braces, and the markers receive substitution indices
    /// 0, 1, 2, ... in text order.
    pub fn parse_implicit(text: &str) -> (m: Message)
        ensures
            m.text_view() == text@,
            m.spans_view() == implicit_spans_from(text@, 0, 0),
            m.wf(),
            forall|j: int| 0 <= j < m.spans_view().len() ==> (#[trigger] m.spans_view()[j]).0 == j,
    {
        let ghost s = text@;
        let len = text.unicode_len();
        let mut spans: Vec<Span> = Vec::new();
        let mut i: usize = 0;
        let mut k: usize = 0;
        while i < len && i + 1 < len
            invariant
                len == s.len(),
                s == text@,
                i <= len,
                2 * k <= i,
                implicit_spans_from(s, 0, 0) == spans_model(spans@) + implicit_spans_from(
                    s,
                    i as int,
                    k as int,
                ),
            decreases len - i,
        {
            if text.get_char(i) == '{' && text.get_char(i + 1) == '}' {
                let sp = Span { index: k, start: i, end: i + 2 };
                proof {
                    assert(implicit_match_at(s, i as int));
                    assert(implicit_spans_from(s, i as int, k as int) == seq![sp.model()]
                        + implicit_spans_from(s, i + 2, k + 1));
                    assert(spans_model(spans@.push(sp)) =~= spans_model(spans@) + seq![
                        sp.model(),
                    ]);
                    assert(implicit_spans_from(s, 0, 0) =~= spans_model(spans@.push(sp))
                        + implicit_spans_from(s, i + 2, k + 1));
                }
                spans.push(sp);
                i = i + 2;
                k = k + 1;
            } else {
                proof {
                    assert(!implicit_match_at(s, i as int));
                    assert(implicit_spans_from(s, i as int, k as int) == implicit_spans_from(
                        s,
                        i + 1,
                        k as int,
                    ));
                }
                i = i + 1;
            }
        }
        proof {
            assert(implicit_spans_from(s, i as int, k as int) =~= Seq::empty());
            assert(implicit_spans_from(s, 0, 0) =~= spans_model(spans@));
            lemma_implicit_spans_wf(s, 0, 0);
        }
        Message { text: String::from_str(text), spans }
    }

    /// Substitutes every placeholder: each span's character range is
    /// replaced by the replacement string its substitution index picks, and
    /// the text around the spans is kept.
    #[verifier::rlimit(60)]
    pub fn substitute(&self, reps: &Vec<&str>) -> (out: String)
        requires
            self.wf(),
            self.indices_below(reps@.len() as int),
        ensures
            out@ == spliced(self.text_view(), self.spans_view(), reps_model(reps@)),
    {
        let ghost s = self.text@;
        let ghost sv = self.spans_view();
        let ghost rv = reps_model(reps@);
        let len = self.text.as_str().unicode_len();
        let mut out = String::new();
        let mut cur: usize = 0;
        let mut k: usize = 0;
        while k < self.spans.len()
            invariant
                self.wf(),
                self.indices_below(reps@.len() as int),
                sv == self.spans_view(),
                s == self.text@,
                rv == reps_model(reps@),
                len == s.len(),
                k <= self.spans@.len(),
                cur <= len,
                if k == 0 {
                    cur == 0
                } else {
                    cur == sv[k - 1].2
                },
                out@ == spliced(s.take(cur as int), sv.take(k as int), rv),
            decreases self.spans@.len() - k,
        {
            let sp = self.spans[k];
            proof {
                assert(sv[k as int] == sp.model());
                if k > 0 {
                    assert(sv[k - 1].2 <= sv[k as int].1);
                }
                assert forall|j: int| 0 <= j < k implies (#[trigger] sv.take(k as int)[j]).2
                    <= cur as int by {
                    assert(sv.take(k as int)[j] == sv[j]);
                    lemma_span_end_le(sv, s.len() as int, j, k - 1);
                }
                assert(spans_wf(sv.take(k as int), cur as int));
            }
            let ghost out_before = out@;
            out.append(self.text.as_str().substring_char(cur, sp.start));
            out.append(reps[sp.index]);
            proof {
                lemma_spliced_extend(s, sv.take(k as int), rv, cur as int, sp.start as int);
                assert(sv.take(k + 1).drop_last() =~= sv.take(k as int));
                assert(sv.take(k + 1).last() == sp.model());
                assert(s.take(sp.end as int).take(sp.start as int) =~= s.take(sp.start as int));
                assert(s.take(sp.end as int).skip(sp.end as int) =~= Seq::<char>::empty());
                assert(spliced(s.take(sp.end as int), sv.take(k + 1), rv) =~= spliced(
                    s.take(sp.start as int),
                    sv.take(k as int),
                    rv,
                ) + rv[sp.index as int]);
                assert(out@ =~= out_before + s.subrange(cur as int, sp.start as int) + rv[sp.index
                    as int]);
                assert(out@ =~= spliced(s.take(sp.end as int), sv.take(k + 1), rv));
            }
            cur = sp.end;
            k = k + 1;
        }
        proof {
            assert forall|j: int| 0 <= j < sv.len() implies (#[trigger] sv[j]).2 <= cur as int by {
                lemma_span_end_le(sv, s.len() as int, j, sv.len() - 1);
            }
            assert(spans_wf(sv, cur as int));
        }
        out.append(self.text.as_str().substring_char(cur, len));
        proof {
            lemma_spliced_extend(s, sv, rv, cur as int, len as int);
            assert(s.take(len as int) =~= s);
            assert(sv.take(sv.len() as int) =~= sv);
            assert(out@ =~= spliced(s, sv, rv));
        }
        out
    }

    /// The message text, unsubstituted.
    pub fn text(&self) -> (r: &str)
        ensures
            r@ == self.text_view(),
    {
        self.text.as_str()
    }

    /// A copy of the message with the same text and the same spans.
    pub fn duplicate(&self) -> (r: Message)
        ensures
            r.text_view() == self.text_view(),
            r.spans_view() == self.spans_view(),
    {
        let mut spans: Vec<Span> = Vec::new();
        let mut j: usize = 0;
        while j < self.spans.len()
            invariant
                j <= self.spans@.len(),
                spans@ == self.spans@.take(j as int),
            decreases self.spans@.len() - j,
        {
            let sp = self.spans[j];
            proof {
                assert(self.spans@.take(j as int).push(sp) =~= self.spans@.take(j + 1));
            }
            spans.push(sp);
            j = j + 1;
        }
        proof {
            assert(self.spans@.take(self.spans@.len() as int) =~= self.spans@);
        }
        Message { text: self.text.clone(), spans }
    }

    /// The number of placeholder spans.
    pub fn span_count(&self) -> (n: usize)
        ensures
            n == self.spans_view().len(),
    {
        self.spans.len()
    }
}

} // verus!
