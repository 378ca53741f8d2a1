//! Generic contract words that are never worth masking even when a recognizer tags them.
use vstd::prelude::*;
use crate::text::{all_ascii, lowercase, string_from_chars, to_lowercase, str_eq};

verus! {

/// The whitespace characters of Unicode (the `White_Space` property that `char::is_whitespace` tests).
pub open spec fn spec_is_whitespace(c: char) -> bool {
    let u = c as u32;
    (0x9 <= u <= 0xd) || u == 0x20 || u == 0x85 || u == 0xa0 || u == 0x1680 || (0x2000 <= u
        <= 0x200a) || u == 0x2028 || u == 0x2029 || u == 0x202f || u == 0x205f || u == 0x3000
}

/// `char::is_whitespace`.
pub fn is_whitespace(c: char) -> (r: bool)
    ensures
        r == spec_is_whitespace(c),
{
    let u = c as u32;
    (0x9 <= u && u <= 0xd) || u == 0x20 || u == 0x85 || u == 0xa0 || u == 0x1680 || (0x2000 <= u
        && u <= 0x200a) || u == 0x2028 || u == 0x2029 || u == 0x202f || u == 0x205f || u == 0x3000
}

/// `s` with every no-break space replaced by a plain space.
pub open spec fn replace_nbsp(s: Seq<char>) -> Seq<char> {
    s.map_values(|c: char| if c == '\u{a0}' { ' ' } else { c })
}

/// The whitespace-separated words of `s` joined by single spaces, read left to right:
/// the result so far, whether a gap follows the last word, and whether a word was seen.
pub open spec fn collapse(s: Seq<char>) -> (Seq<char>, bool, bool)
    decreases s.len(),
{
    if s.len() == 0 {
        (seq![], false, false)
    } else {
        let prev = collapse(s.drop_last());
        let c = s.last();
        if spec_is_whitespace(c) {
            (prev.0, prev.2, prev.2)
        } else {
            (if prev.1 { prev.0.push(' ') } else { prev.0 }.push(c), false, true)
        }
    }
}

/// The comparison key of a candidate: words joined by one space, then lowercased.
pub open spec fn spec_normalize(raw: Seq<char>) -> Seq<char> {
    lowercase(collapse(replace_nbsp(raw)).0)
}

/// The rejected words, in their normalized form.
pub open spec fn spec_rejected() -> Seq<Seq<char>> {
    seq![
        "you"@, "your"@, "affiliate"@, "affiliates"@, "customer"@, "customers"@, "applicant"@,
        "applicants"@, "person"@, "persons"@, "person's"@, "officer"@, "officers"@, "director"@,
        "directors"@, "employee"@, "employees"@, "shareholder"@, "shareholders"@, "website"@,
        "websites"@, "webpage"@, "page"@, "email"@, "e-mail"@, "link"@, "links"@,
    ]
}

fn rejected_words() -> (r: Vec<&'static str>)
    ensures
        r@.len() == spec_rejected().len(),
        forall|i: int| 0 <= i < r@.len() ==> r@[i]@ == #[trigger] spec_rejected()[i],
{
    vec![
        "you", "your", "affiliate", "affiliates", "customer", "customers", "applicant",
        "applicants", "person", "persons", "person's", "officer", "officers", "director",
        "directors", "employee", "employees", "shareholder", "shareholders", "website",
        "websites", "webpage", "page", "email", "e-mail", "link", "links",
    ]
}

/// The comparison key of an ASCII candidate: words joined by one space, ASCII-lowercased.
pub open spec fn ascii_key(raw: Seq<char>) -> Seq<char> {
    crate::gaze::spec_ascii_lowercase(collapse(replace_nbsp(raw)).0)
}

/// Whether `raw`, once normalized, is one of the rejected generic words.
pub fn is_rejected(raw: &str) -> (r: bool)
    ensures
        r == spec_rejected().contains(spec_normalize(raw@)),
        all_ascii(raw@) ==> r == spec_rejected().contains(ascii_key(raw@)),
{
    let key = normalize(raw);
    let words = rejected_words();
    let mut i: usize = 0;
    while i < words.len()
        invariant
            key@ == spec_normalize(raw@),
            all_ascii(raw@) ==> key@ == ascii_key(raw@),
            words@.len() == spec_rejected().len(),
            forall|j: int| 0 <= j < words@.len() ==> words@[j]@ == #[trigger] spec_rejected()[j],
            i <= words@.len(),
            forall|j: int| 0 <= j < i ==> spec_rejected()[j] != key@,
        decreases words@.len() - i,
    {
        if str_eq(key.as_str(), words[i]) {
            proof {
                assert(spec_rejected()[i as int] == key@);
            }
            return true;
        }
        i += 1;
    }
    proof {
        assert forall|j: int| 0 <= j < spec_rejected().len() implies spec_rejected()[j] != key@ by {}
    }
    false
}

/// Words of `raw` joined by single spaces (no-break spaces count as spaces), lowercased.
fn normalize(raw: &str) -> (r: String)
    ensures
        r@ == spec_normalize(raw@),
        all_ascii(raw@) ==> r@ == ascii_key(raw@),
{
    let mut out: Vec<char> = Vec::new();
    let mut gap = false;
    let mut seen = false;
    let ghost s = replace_nbsp(raw@);
    for c0 in it: raw.chars()
        invariant
            it.seq() == raw@,
            s == replace_nbsp(raw@),
            (out@, gap, seen) == collapse(s.take(it.index() as int)),
    {
        let c = if c0 == '\u{a0}' { ' ' } else { c0 };
        proof {
            assert(s.take(it.index() + 1).drop_last() =~= s.take(it.index() as int));
        }
        if is_whitespace(c) {
            gap = seen;
        } else {
            if gap {
                out.push(' ');
            }
            out.push(c);
            gap = false;
            seen = true;
        }
    }
    proof {
        assert(s.take(raw@.len() as int) =~= s);
    }
    let joined = string_from_chars(out);
    proof {
        if all_ascii(raw@) {
            assert forall|i: int| 0 <= i < s.len() implies (#[trigger] s[i] as u32) < 128 by {
                assert((raw@[i] as u32) < 128);
            }
            lemma_collapse_ascii(s);
        }
    }
    to_lowercase(joined.as_str())
}

/// Words separated by single plain spaces: the only whitespace is `' '`, never first, last
/// or next to other whitespace.
pub open spec fn single_spaced(r: Seq<char>) -> bool {
    forall|i: int|
        0 <= i < r.len() && spec_is_whitespace(#[trigger] r[i]) ==> r[i] == ' ' && 0 < i < r.len() - 1
            && !spec_is_whitespace(r[i - 1]) && !spec_is_whitespace(r[i + 1])
}

proof fn lemma_collapse_shape(s: Seq<char>)
    ensures
        single_spaced(collapse(s).0),
        collapse(s).2 == (collapse(s).0.len() > 0),
        collapse(s).1 ==> collapse(s).2,
        collapse(s).0.len() > 0 ==> !spec_is_whitespace(collapse(s).0.last()),
    decreases s.len(),
{
    if s.len() > 0 {
        lemma_collapse_shape(s.drop_last());
        let prev = collapse(s.drop_last());
        let c = s.last();
        if !spec_is_whitespace(c) {
            let p = prev.0;
            let q = if prev.1 { p.push(' ') } else { p };
            let r = q.push(c);
            assert(spec_is_whitespace(' ')) by {
                assert((' ' as u32) == 0x20);
            }
            assert forall|i: int|
                0 <= i < r.len() && spec_is_whitespace(#[trigger] r[i]) implies r[i] == ' ' && 0 < i < r.len() - 1
                    && !spec_is_whitespace(r[i - 1]) && !spec_is_whitespace(r[i + 1]) by {
                if i < p.len() {
                    assert(r[i] == p[i]);
                    if i + 1 < p.len() {
                        assert(r[i + 1] == p[i + 1]);
                    } else {
                        assert(p[i] == p.last());
                    }
                    assert(r[i - 1] == p[i - 1]);
                } else if i == p.len() && prev.1 {
                    assert(r[i] == ' ');
                    assert(r[i - 1] == p.last());
                    assert(r[i + 1] == c);
                } else {
                    assert(r[i] == c);
                }
            }
        }
    }
}

/// What a single-spaced text collapses to at each prefix: itself, with a trailing space
/// left pending as a gap.
proof fn lemma_collapse_prefix(c: Seq<char>, n: int)
    requires
        single_spaced(c),
        0 <= n <= c.len(),
    ensures
        collapse(c.take(n)) == (if n > 0 && c[n - 1] == ' ' {
            (c.take(n - 1), true, true)
        } else {
            (c.take(n), false, n > 0)
        }),
    decreases n,
{
    if n > 0 {
        lemma_collapse_prefix(c, n - 1);
        let t = c.take(n);
        assert(t.drop_last() =~= c.take(n - 1));
        assert(t.last() == c[n - 1]);
        assert(spec_is_whitespace(' ')) by {
            assert((' ' as u32) == 0x20);
        }
        let x = c[n - 1];
        if spec_is_whitespace(x) {
            assert(x == ' ' && n - 1 > 0 && !spec_is_whitespace(c[n - 2]));
        } else if n > 1 && c[n - 2] == ' ' {
            assert(c.take(n - 2).push(' ').push(x) =~= c.take(n));
        } else {
            assert(c.take(n - 1).push(x) =~= c.take(n));
        }
    }
}

/// The key a candidate is compared by, before lowercasing, has its words separated by single
/// plain spaces (no no-break space, tab or line break, nothing leading or trailing), and
/// computing it again from it changes nothing.
pub proof fn lemma_normalize_shape(raw: Seq<char>)
    ensures
        single_spaced(collapse(replace_nbsp(raw)).0),
        !collapse(replace_nbsp(raw)).0.contains('\u{a0}'),
        collapse(replace_nbsp(collapse(replace_nbsp(raw)).0)).0 == collapse(replace_nbsp(raw)).0,
{
    let c = collapse(replace_nbsp(raw)).0;
    lemma_collapse_shape(replace_nbsp(raw));
    assert(spec_is_whitespace('\u{a0}')) by {
        assert(('\u{a0}' as u32) == 0xa0);
    }
    assert(!c.contains('\u{a0}'));
    assert(replace_nbsp(c) =~= c);
    lemma_collapse_prefix(c, c.len() as int);
    assert(c.take(c.len() as int) =~= c);
    if c.len() > 0 {
        assert(c[c.len() - 1] == c.last());
    }
}

proof fn lemma_collapse_ascii(s: Seq<char>)
    requires
        all_ascii(s),
    ensures
        all_ascii(collapse(s).0),
    decreases s.len(),
{
    if s.len() > 0 {
        let d = s.drop_last();
        assert forall|i: int| 0 <= i < d.len() implies (#[trigger] d[i] as u32) < 128 by {
            assert(d[i] == s[i]);
        }
        lemma_collapse_ascii(d);
        let prev = collapse(d).0;
        let c = s.last();
        assert((c as u32) < 128) by {
            assert(c == s[s.len() - 1]);
        }
        if !spec_is_whitespace(c) {
            let q = if collapse(d).1 { prev.push(' ') } else { prev };
            let r = q.push(c);
            assert forall|i: int| 0 <= i < r.len() implies (#[trigger] r[i] as u32) < 128 by {
                if i < prev.len() {
                    assert(r[i] == prev[i]);
                }
            }
        }
    }
}

/// Every generic word of the contract vocabulary below is rejected in any ASCII case and
/// spacing: an ASCII candidate whose words, joined by one space and lowercased, form one of
/// them is not masked.
pub proof fn lemma_rejected_words(raw: Seq<char>)
    requires
        all_ascii(raw),
        seq![
            "affiliate"@,
            "affiliates"@,
            "applicant"@,
            "applicants"@,
            "customer"@,
            "customers"@,
            "director"@,
            "directors"@,
            "e-mail"@,
            "email"@,
            "employee"@,
            "employees"@,
            "link"@,
            "links"@,
            "officer"@,
            "officers"@,
            "page"@,
            "person"@,
            "person's"@,
            "persons"@,
            "shareholder"@,
            "shareholders"@,
            "webpage"@,
            "website"@,
            "websites"@,
            "you"@,
            "your"@,
        ].contains(ascii_key(raw)),
    ensures
        spec_rejected().contains(ascii_key(raw)),
{
}

} // verus!
