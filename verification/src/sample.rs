use vstd::prelude::*;

verus! {

/// The position of the first empty brace pair of `s` at or after `i`.
pub open spec fn first_marker_from(s: Seq<char>, i: int) -> int
    decreases s.len() - i,
{
    if i < 0 || i + 1 >= s.len() {
        -1
    } else if s[i] == '{' && s[i + 1] == '}' {
        i
    } else {
        first_marker_from(s, i + 1)
    }
}

/// The text with its first empty brace pair replaced by `arg`; a text
/// without one is kept whole.
pub open spec fn marker_replaced(s: Seq<char>, arg: Seq<char>) -> Seq<char> {
    let p = first_marker_from(s, 0);
    if p == -1 {
        s
    } else {
        s.take(p) + arg + s.skip(p + 2)
    }
}

/// Replaces the first empty brace pair of `text` with `arg`.
fn replace_first_marker(text: &str, arg: &str) -> (r: String)
    ensures
        r@ == marker_replaced(text@, arg@),
{
    let ghost s = text@;
    let len = text.unicode_len();
    let mut i: usize = 0;
    while i < len && i + 1 < len
        invariant
            len == s.len(),
            s == text@,
            i <= len,
            first_marker_from(s, 0) == first_marker_from(s, i as int),
            forall|j: int| 0 <= j < i ==> first_marker_from(s, j) == first_marker_from(s, i as int),
        decreases len - i,
    {
        if text.get_char(i) == '{' && text.get_char(i + 1) == '}' {
            let mut r = String::from_str(text.substring_char(0, i));
            r.append(arg);
            r.append(text.substring_char(i + 2, len));
            proof {
                assert(first_marker_from(s, i as int) == i);
                assert(s.subrange(0, i as int) =~= s.take(i as int));
                assert(s.subrange(i + 2, len as int) =~= s.skip(i + 2));
            }
            return r;
        }
        proof {
            assert(first_marker_from(s, i as int) == first_marker_from(s, i + 1));
        }
        i = i + 1;
    }
    proof {
        assert(first_marker_from(s, i as int) == -1);
        assert(first_marker_from(s, 0) == -1);
    }
    String::from_str(text)
}

/// The namespace `general.this.is`: one interpolatable message.
pub struct Is {
    pub a: &'static str,
}

impl Is {
    /// The message at `general.this.is.a` with its placeholder substituted.
    pub fn a(&self, _0: &str) -> (r: String)
        ensures
            r@ == marker_replaced(self.a@, _0@),
    {
        replace_first_marker(self.a, _0)
    }
}

/// The namespace `general.hello`: one literal message.
pub struct Hello {
    pub world: &'static str,
}

impl Hello {
    /// The literal message at `general.hello.world`.
    pub fn world(&self) -> (r: String)
        ensures
            r@ == self.world@,
    {
        String::from_str(self.world)
    }
}

/// The namespace `general.this`.
pub struct This {
    pub is: Is,
}

/// The namespace `general`.
pub struct General {
    pub this: This,
    pub hello: Hello,
}

/// The root of the typed message structure.
pub struct Root {
    pub general: General,
}

/// The populated value trees, one per locale, in insertion order.
pub fn build_translators() -> (r: Vec<(String, Root)>)
    ensures
        r@.len() == 2,
        r@[0].0@ == "en"@,
        r@[0].1.general.this.is.a@ == "this is a {}"@,
        r@[0].1.general.hello.world@ == "Hello World"@,
        r@[1].0@ == "ja"@,
        r@[1].1.general.this.is.a@ == "これは{}です"@,
        r@[1].1.general.hello.world@ == "こんにちは"@,
{
    let mut r: Vec<(String, Root)> = Vec::new();
    r.push(
        (
            String::from_str("en"),
            Root {
                general: General {
                    this: This { is: Is { a: "this is a {}" } },
                    hello: Hello { world: "Hello World" },
                },
            },
        ),
    );
    r.push(
        (
            String::from_str("ja"),
            Root {
                general: General {
                    this: This { is: Is { a: "これは{}です" } },
                    hello: Hello { world: "こんにちは" },
                },
            },
        ),
    );
    r
}

/// A handle on one locale's value tree.
pub struct I18n {
    pub locale: String,
    pub t: Root,
}

impl I18n {
    /// The handle for a known locale. An unknown locale is refused by
    /// contract: lookup failures are programmer errors, fallback has
    /// already happened at compile time.
    pub fn new(locale: &str) -> (r: I18n)
        requires
            locale@ == "en"@ || locale@ == "ja"@,
        ensures
            r.locale@ == locale@,
            locale@ == "en"@ ==> r.t.general.this.is.a@ == "this is a {}"@
                && r.t.general.hello.world@ == "Hello World"@,
            locale@ == "ja"@ ==> r.t.general.this.is.a@ == "これは{}です"@
                && r.t.general.hello.world@ == "こんにちは"@,
    {
        proof {
            broadcast use vstd::string::group_string_axioms;

            reveal_strlit("en");
            reveal_strlit("ja");
            assert("en"@.len() == 2);
            assert("en"@[0] == 'e');
            assert("ja"@[0] == 'j');
            assert("en"@ != "ja"@);
        }
        let mut translators = build_translators();
        let pair = if crate::strutil::str_eq(locale, "en") {
            translators.remove(0)
        } else {
            translators.remove(1)
        };
        I18n { locale: String::from_str(locale), t: pair.1 }
    }
}

} // verus!
