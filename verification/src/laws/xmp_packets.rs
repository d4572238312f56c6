//! XMP packets: the properties that are decoded are those that stand in the attributes and in
//! the elements, in that order.
use vstd::prelude::*;
use vstd::utf8::{decode_utf8, valid_utf8};

use crate::codecs::xmp::{
    ascii_white, attributes, back_name, back_white, decoded, elements, entities, entity, find,
    leaf, name_char, name_end, owner, qname, split, with_attribute, FrameView, Scan,
};
use crate::limits::Limits;
use crate::model::{Warning, XmpView};
use crate::text::trim;

verus! {

/// `s` stands at `i`.
pub open spec fn at(b: Seq<char>, i: int, s: Seq<char>) -> bool {
    0 <= i && i + s.len() <= b.len() && b.subrange(i, i + s.len()) == s
}

proof fn lemma_at(b: Seq<char>, i: int, x: Seq<char>, y: Seq<char>)
    requires
        at(b, i, x + y),
    ensures
        at(b, i, x),
        at(b, i + x.len(), y),
{
    let s = b.subrange(i, i + (x + y).len());
    assert(b.subrange(i, i + x.len()) =~= s.subrange(0, x.len() as int));
    assert(s.subrange(0, x.len() as int) =~= x);
    let k = x.len() as int;
    assert(b.subrange(i + k, i + k + y.len()) =~= s.subrange(k, k + y.len()));
    assert(s.subrange(k, k + y.len()) =~= y);
}

proof fn lemma_char(b: Seq<char>, i: int, s: Seq<char>, k: int)
    requires
        at(b, i, s),
        0 <= k < s.len(),
    ensures
        b[i + k] == s[k],
{
    assert(b.subrange(i, i + s.len())[k] == b[i + k]);
}

/// A letter, a digit, or one of three signs.
pub open spec fn in_name(c: char) -> bool {
    'a' <= c <= 'z' || 'A' <= c <= 'Z' || '0' <= c <= '9' || c == '.' || c == '_' || c == '-'
}

/// One part of a name.
pub open spec fn is_name(s: Seq<char>) -> bool {
    s.len() > 0 && forall|i: int| 0 <= i < s.len() ==> in_name(#[trigger] s[i])
}

/// A name of two parts.
pub open spec fn full_name(px: Seq<char>, nm: Seq<char>) -> Seq<char> {
    px + seq![':'] + nm
}

proof fn lemma_find(s: Seq<char>, c: char, i: int, n: int)
    requires
        0 <= i <= n <= s.len(),
        forall|j: int| i <= j < n ==> s[j] != c,
        n < s.len() ==> s[n] == c,
    ensures
        find(s, c, i) == n,
    decreases n - i,
{
    if i < n {
        lemma_find(s, c, i + 1, n);
    }
}

proof fn lemma_name_end(b: Seq<char>, i: int, n: int)
    requires
        0 <= i <= n <= b.len(),
        forall|j: int| i <= j < n ==> name_char(#[trigger] b[j]),
        n < b.len() ==> !name_char(b[n]),
    ensures
        name_end(b, i) == n,
    decreases n - i,
{
    if i < n {
        assert(name_char(b[i]));
        lemma_name_end(b, i + 1, n);
    }
}

proof fn lemma_split(px: Seq<char>, nm: Seq<char>)
    requires
        is_name(px),
        is_name(nm),
    ensures
        split(full_name(px, nm)) == Some((px, nm)),
{
    let q = full_name(px, nm);
    let k = px.len() as int;
    assert forall|j: int| 0 <= j < k implies q[j] != ':' by {
        assert(q[j] == px[j]);
        assert(in_name(px[j]));
    }
    assert(q[k] == ':');
    lemma_find(q, ':', 0, k);
    assert(q.subrange(0, k) =~= px);
    assert(q.subrange(k + 1, q.len() as int) =~= nm);
}

proof fn lemma_name_chars(px: Seq<char>, nm: Seq<char>)
    requires
        is_name(px),
        is_name(nm),
    ensures
        forall|j: int|
            0 <= j < full_name(px, nm).len() ==> name_char(#[trigger] full_name(px, nm)[j]),
{
    let q = full_name(px, nm);
    assert forall|j: int| 0 <= j < q.len() implies name_char(#[trigger] q[j]) by {
        if j < px.len() {
            assert(in_name(px[j]));
        } else if j > px.len() {
            assert(in_name(nm[j - px.len() - 1]));
        }
    }
}

/// A name that stands at `i` and ends there.
proof fn lemma_name_at(b: Seq<char>, i: int, px: Seq<char>, nm: Seq<char>)
    requires
        is_name(px),
        is_name(nm),
        at(b, i, full_name(px, nm)),
        i + full_name(px, nm).len() < b.len() ==> !name_char(b[i + full_name(px, nm).len()]),
    ensures
        name_end(b, i) == i + full_name(px, nm).len(),
        qname(b, i) == (px, nm),
        name_char(b[i]),
        b[i + full_name(px, nm).len() - 1] != '/',
{
    let q = full_name(px, nm);
    let n = i + q.len();
    lemma_name_chars(px, nm);
    assert forall|j: int| i <= j < n implies name_char(#[trigger] b[j]) by {
        lemma_char(b, i, q, j - i);
        assert(name_char(q[j - i]));
    }
    lemma_name_end(b, i, n);
    lemma_split(px, nm);
    assert(name_char(b[n - 1]));
}

/// What stands behind the name in a tag: nothing, or something behind white space, without an
/// end of a tag.
pub open spec fn is_rest(s: Seq<char>) -> bool {
    &&& s.len() > 0 ==> s[0] == ' ' && s[s.len() - 1] != '/'
    &&& forall|i: int| 0 <= i < s.len() ==> s[i] != '>'
}

pub open spec fn opening(px: Seq<char>, nm: Seq<char>, rest: Seq<char>) -> Seq<char> {
    seq!['<'] + full_name(px, nm) + rest + seq!['>']
}

pub open spec fn closing(px: Seq<char>, nm: Seq<char>) -> Seq<char> {
    seq!['<', '/'] + full_name(px, nm) + seq!['>']
}

/// An opening tag, as it is looked at.
proof fn lemma_opening(b: Seq<char>, i: int, px: Seq<char>, nm: Seq<char>, rest: Seq<char>)
    requires
        is_name(px),
        is_name(nm),
        is_rest(rest),
        at(b, i, opening(px, nm, rest)),
    ensures
        ({
            let gt = i + opening(px, nm, rest).len() - 1;
            &&& i + 1 < gt < b.len()
            &&& b[i] == '<'
            &&& b[i + 1] != '!' && b[i + 1] != '?' && b[i + 1] != '/'
            &&& qname(b, i + 1) == (px, nm)
            &&& find(b, '>', name_end(b, i + 1)) == gt
            &&& b[gt - 1] != '/'
        }),
{
    let q = full_name(px, nm);
    let all = opening(px, nm, rest);
    let gt = i + all.len() - 1;
    assert(all =~= seq!['<'] + (q + (rest + seq!['>'])));
    lemma_at(b, i, seq!['<'], q + (rest + seq!['>']));
    lemma_char(b, i, seq!['<'], 0);
    lemma_at(b, i + 1, q, rest + seq!['>']);
    let e = i + 1 + q.len();
    let z = rest + seq!['>'];
    lemma_char(b, e, z, 0);
    assert(b[e] == ' ' || b[e] == '>');
    lemma_name_at(b, i + 1, px, nm);
    assert forall|j: int| e <= j < gt implies b[j] != '>' by {
        lemma_char(b, e, z, j - e);
        assert(z[j - e] == rest[j - e]);
    }
    lemma_char(b, e, z, rest.len() as int);
    lemma_find(b, '>', e, gt);
    if rest.len() > 0 {
        lemma_char(b, e, z, rest.len() - 1);
    }
}

proof fn lemma_closing(b: Seq<char>, i: int, px: Seq<char>, nm: Seq<char>)
    requires
        is_name(px),
        is_name(nm),
        at(b, i, closing(px, nm)),
    ensures
        ({
            let gt = i + closing(px, nm).len() - 1;
            &&& i + 2 < gt < b.len()
            &&& b[i] == '<' && b[i + 1] == '/'
            &&& qname(b, i + 2) == (px, nm)
            &&& find(b, '>', name_end(b, i + 2)) == gt
            &&& b[gt] == '>'
        }),
{
    let q = full_name(px, nm);
    let all = closing(px, nm);
    let gt = i + all.len() - 1;
    assert(all =~= seq!['<', '/'] + (q + seq!['>']));
    lemma_at(b, i, seq!['<', '/'], q + seq!['>']);
    lemma_char(b, i, seq!['<', '/'], 0);
    lemma_char(b, i, seq!['<', '/'], 1);
    lemma_at(b, i + 2, q, seq!['>']);
    lemma_char(b, gt, seq!['>'], 0);
    lemma_name_at(b, i + 2, px, nm);
    lemma_find(b, '>', gt, gt);
}

/// Nothing but white space.
pub open spec fn is_gap(s: Seq<char>) -> bool {
    trim(s).len() == 0 && forall|i: int| 0 <= i < s.len() ==> s[i] != '<'
}

/// A text in an element.
pub open spec fn is_content(s: Seq<char>) -> bool {
    trim(s).len() > 0 && forall|i: int| 0 <= i < s.len() ==> s[i] != '<'
}

/// What is no tag is passed over.
proof fn lemma_pass(b: Seq<char>, i: int, j: int, s: Scan, l: Limits)
    requires
        0 <= i <= j < b.len(),
        forall|k: int| i <= k < j ==> b[k] != '<',
        j + 1 < b.len(),
    ensures
        elements(b, i, s, l) == elements(b, j, s, l),
    decreases j - i,
{
    if i < j {
        lemma_pass(b, i + 1, j, s, l);
    }
}

/// An element with a text, up to its closing tag.
proof fn lemma_leaf(
    b: Seq<char>,
    i: int,
    px: Seq<char>,
    nm: Seq<char>,
    rest: Seq<char>,
    text: Seq<char>,
    s: Scan,
    l: Limits,
)
    requires
        is_name(px),
        is_name(nm),
        is_rest(rest),
        is_content(text),
        at(b, i, opening(px, nm, rest) + text),
        ({
            let j = i + opening(px, nm, rest).len() + text.len();
            j < b.len() && b[j] == '<'
        }),
    ensures
        elements(b, i, s, l) == elements(
            b,
            i + opening(px, nm, rest).len() + text.len(),
            leaf(px, nm, text, s, l),
            l,
        ),
{
    let o = opening(px, nm, rest);
    lemma_at(b, i, o, text);
    lemma_opening(b, i, px, nm, rest);
    let g = i + o.len();
    let j = g + text.len();
    assert forall|k: int| g <= k < j implies b[k] != '<' by {
        lemma_char(b, g, text, k - g);
    }
    lemma_find(b, '<', g, j);
    assert(b.subrange(g, j) =~= text);
}

/// An element with elements in it.
proof fn lemma_frame(
    b: Seq<char>,
    i: int,
    px: Seq<char>,
    nm: Seq<char>,
    rest: Seq<char>,
    gap: Seq<char>,
    s: Scan,
    l: Limits,
)
    requires
        is_name(px),
        is_name(nm),
        is_rest(rest),
        is_gap(gap),
        s.stack.len() < l.max_depth,
        at(b, i, opening(px, nm, rest) + gap),
        ({
            let j = i + opening(px, nm, rest).len() + gap.len();
            j + 1 < b.len() && b[j] == '<'
        }),
    ensures
        elements(b, i, s, l) == elements(
            b,
            i + opening(px, nm, rest).len() + gap.len(),
            Scan {
                stack: s.stack.push(
                    FrameView {
                        prefix: px,
                        name: nm,
                        is_alt: px == "rdf"@ && nm == "Alt"@,
                        alt_taken: false,
                    },
                ),
                ..s
            },
            l,
        ),
{
    let o = opening(px, nm, rest);
    lemma_at(b, i, o, gap);
    lemma_opening(b, i, px, nm, rest);
    let g = i + o.len();
    let j = g + gap.len();
    assert forall|k: int| g <= k < j implies b[k] != '<' by {
        lemma_char(b, g, gap, k - g);
    }
    lemma_find(b, '<', g, j);
    assert(b.subrange(g, j) =~= gap);
    let t = Scan {
        stack: s.stack.push(
            FrameView {
                prefix: px,
                name: nm,
                is_alt: px == "rdf"@ && nm == "Alt"@,
                alt_taken: false,
            },
        ),
        ..s
    };
    lemma_pass(b, g, j, t, l);
}

/// A closing tag, and the white space behind it.
proof fn lemma_close(
    b: Seq<char>,
    i: int,
    px: Seq<char>,
    nm: Seq<char>,
    gap: Seq<char>,
    s: Scan,
    l: Limits,
)
    requires
        is_name(px),
        is_name(nm),
        is_gap(gap),
        at(b, i, closing(px, nm) + gap),
        ({
            let j = i + closing(px, nm).len() + gap.len();
            j + 1 < b.len() && b[j] == '<'
        }),
    ensures
        elements(b, i, s, l) == elements(
            b,
            i + closing(px, nm).len() + gap.len(),
            Scan {
                stack: if s.stack.len() > 0 && s.stack.last().prefix == px && s.stack.last().name
                    == nm {
                    s.stack.drop_last()
                } else {
                    s.stack
                },
                ..s
            },
            l,
        ),
{
    let c = closing(px, nm);
    lemma_at(b, i, c, gap);
    lemma_closing(b, i, px, nm);
    let g = i + c.len();
    let j = g + gap.len();
    let t = Scan {
        stack: if s.stack.len() > 0 && s.stack.last().prefix == px && s.stack.last().name == nm {
            s.stack.drop_last()
        } else {
            s.stack
        },
        ..s
    };
    assert forall|k: int| g - 1 <= k < j implies b[k] != '<' by {
        if k >= g {
            lemma_char(b, g, gap, k - g);
        }
    }
    lemma_pass(b, g - 1, j, t, l);
}

/// An item of a list: what stands in its tag, its text, and white space behind it.
pub struct Entry {
    pub rest: Seq<char>,
    pub text: Seq<char>,
    pub gap: Seq<char>,
}

pub open spec fn is_entry(e: Entry) -> bool {
    is_rest(e.rest) && is_content(e.text) && is_gap(e.gap)
}

/// A property as an element: with a text, or with a list of texts, of which only the first
/// counts where they are alternatives.
pub enum Property {
    Text { prefix: Seq<char>, name: Seq<char>, rest: Seq<char>, text: Seq<char>, gap: Seq<char> },
    List {
        prefix: Seq<char>,
        name: Seq<char>,
        kind: Seq<char>,
        gaps: (Seq<char>, Seq<char>, Seq<char>, Seq<char>),
        entries: Seq<Entry>,
    },
}

pub open spec fn is_property(p: Property) -> bool {
    match p {
        Property::Text { prefix, name, rest, text, gap } => is_name(prefix) && is_name(name)
            && prefix != "rdf"@ && prefix != "x"@ && is_rest(rest) && is_content(text) && is_gap(
            gap,
        ),
        Property::List { prefix, name, kind, gaps, entries } => is_name(prefix) && is_name(name)
            && prefix != "rdf"@ && is_name(kind) && kind != "li"@ && is_gap(gaps.0) && is_gap(gaps.1)
            && is_gap(gaps.2) && is_gap(gaps.3) && forall|i: int|
            0 <= i < entries.len() ==> is_entry(#[trigger] entries[i]),
    }
}

pub open spec fn entry_text(e: Entry) -> Seq<char> {
    opening("rdf"@, "li"@, e.rest) + e.text + (closing("rdf"@, "li"@) + e.gap)
}

pub open spec fn entries_text(es: Seq<Entry>) -> Seq<char>
    decreases es.len(),
{
    if es.len() == 0 {
        seq![]
    } else {
        entry_text(es[0]) + entries_text(es.drop_first())
    }
}

pub open spec fn property_text(p: Property) -> Seq<char> {
    match p {
        Property::Text { prefix, name, rest, text, gap } => opening(prefix, name, rest) + text + (
        closing(prefix, name) + gap),
        Property::List { prefix, name, kind, gaps, entries } => (opening(prefix, name, seq![])
            + gaps.0) + ((opening("rdf"@, kind, seq![]) + gaps.1) + (entries_text(entries) + ((
        closing("rdf"@, kind) + gaps.2) + (closing(prefix, name) + gaps.3)))),
    }
}

/// The values of entries.
pub open spec fn values(prefix: Seq<char>, name: Seq<char>, es: Seq<Entry>) -> Seq<XmpView> {
    Seq::new(es.len(), |i: int| XmpView { prefix, name, value: entities(trim(es[i].text)) })
}

/// What a property tells.
pub open spec fn property_tells(p: Property) -> Seq<XmpView> {
    match p {
        Property::Text { prefix, name, text, .. } => seq![
            XmpView { prefix, name, value: entities(trim(text)) },
        ],
        Property::List { prefix, name, kind, entries, .. } => if kind == "Alt"@ && entries.len() > 1 {
            values(prefix, name, entries.take(1))
        } else {
            values(prefix, name, entries)
        },
    }
}

proof fn lemma_rdf()
    ensures
        is_name("rdf"@),
        is_name("li"@),
        "rdf"@ != "x"@,
{
    reveal_strlit("rdf");
    reveal_strlit("li");
    reveal_strlit("x");
}

/// One entry of a list: `taken` tells whether it does not count.
#[verifier::rlimit(40)]
proof fn lemma_entry(
    b: Seq<char>,
    i: int,
    e: Entry,
    s: Scan,
    l: Limits,
    prefix: Seq<char>,
    name: Seq<char>,
    base: Seq<FrameView>,
    kind: Seq<char>,
    taken: bool,
)
    requires
        is_entry(e),
        at(b, i, entry_text(e)),
        i + entry_text(e).len() + 1 < b.len(),
        b[i + entry_text(e).len()] == '<',
        prefix != "rdf"@,
        kind != "li"@,
        s.stack == in_list(base, prefix, name, kind, taken),
        s.out.len() < l.max_tags,
    ensures
        elements(b, i, s, l) == elements(
            b,
            i + entry_text(e).len(),
            Scan {
                stack: in_list(base, prefix, name, kind, kind == "Alt"@),
                out: if kind == "Alt"@ && taken {
                    s.out
                } else {
                    s.out.push(XmpView { prefix, name, value: entities(trim(e.text)) })
                },
            },
            l,
        ),
{
    lemma_rdf();
    let o = opening("rdf"@, "li"@, e.rest);
    let c = closing("rdf"@, "li"@) + e.gap;
    lemma_at(b, i, o + e.text, c);
    let j = i + o.len() + e.text.len();
    lemma_at(b, j, closing("rdf"@, "li"@), e.gap);
    lemma_closing(b, j, "rdf"@, "li"@);
    lemma_leaf(b, i, "rdf"@, "li"@, e.rest, e.text, s, l);
    let t = leaf("rdf"@, "li"@, e.text, s, l);
    let now = in_list(base, prefix, name, kind, kind == "Alt"@);
    lemma_owner(base, prefix, name, kind, kind == "Alt"@);
    lemma_owner(base, prefix, name, kind, taken);
    if kind == "Alt"@ {
        assert(s.stack.drop_last().push(FrameView { alt_taken: true, ..s.stack.last() })
            =~= in_list(base, prefix, name, kind, true));
    }
    assert(t.stack =~= now);
    assert(now.last().name == kind);
    lemma_close(b, j, "rdf"@, "li"@, e.gap, t, l);
}

/// The open elements inside a list.
spec fn in_list(
    base: Seq<FrameView>,
    prefix: Seq<char>,
    name: Seq<char>,
    kind: Seq<char>,
    taken: bool,
) -> Seq<FrameView> {
    base.push(FrameView { prefix, name, is_alt: false, alt_taken: false }).push(
        FrameView {
            prefix: "rdf"@,
            name: kind,
            is_alt: kind == "Alt"@,
            alt_taken: kind == "Alt"@ && taken,
        },
    )
}

proof fn lemma_owner(
    base: Seq<FrameView>,
    prefix: Seq<char>,
    name: Seq<char>,
    kind: Seq<char>,
    taken: bool,
)
    requires
        prefix != "rdf"@,
    ensures
        owner(in_list(base, prefix, name, kind, taken)) matches Some(f) && f.prefix == prefix
            && f.name == name,
{
    let s = in_list(base, prefix, name, kind, taken);
    let p = base.push(FrameView { prefix, name, is_alt: false, alt_taken: false });
    assert(s.drop_last() =~= p);
    assert(s.last().prefix == "rdf"@);
    assert(p.last().prefix == prefix);
    assert(owner(p) == Some(p.last()));
}

#[verifier::rlimit(40)]
proof fn lemma_entries(
    b: Seq<char>,
    i: int,
    es: Seq<Entry>,
    s: Scan,
    l: Limits,
    prefix: Seq<char>,
    name: Seq<char>,
    base: Seq<FrameView>,
    kind: Seq<char>,
    taken: bool,
)
    requires
        forall|k: int| 0 <= k < es.len() ==> is_entry(#[trigger] es[k]),
        at(b, i, entries_text(es)),
        i + entries_text(es).len() + 1 < b.len(),
        b[i + entries_text(es).len()] == '<',
        prefix != "rdf"@,
        kind != "li"@,
        s.stack == in_list(base, prefix, name, kind, taken),
        s.out.len() + es.len() <= l.max_tags,
    ensures
        elements(b, i, s, l) == elements(
            b,
            i + entries_text(es).len(),
            Scan {
                stack: in_list(base, prefix, name, kind, taken || es.len() > 0),
                out: s.out + (if kind == "Alt"@ && taken {
                    seq![]
                } else if kind == "Alt"@ && es.len() > 1 {
                    values(prefix, name, es.take(1))
                } else {
                    values(prefix, name, es)
                }),
            },
            l,
        ),
    decreases es.len(),
{
    if es.len() == 0 {
        assert(s.out + values(prefix, name, es) =~= s.out);
        assert(s.out + seq![] =~= s.out);
    } else {
        let e = es[0];
        let m = es.drop_first();
        assert(is_entry(e));
        lemma_at(b, i, entry_text(e), entries_text(m));
        let j = i + entry_text(e).len();
        if m.len() > 0 {
            lemma_rdf();
            let o = opening("rdf"@, "li"@, m[0].rest);
            assert(entries_text(m)[0] == o[0]);
            lemma_char(b, j, entries_text(m), 0);
        }
        assert(b[j] == '<');
        lemma_entry(b, i, e, s, l, prefix, name, base, kind, taken);
        assert forall|k: int| 0 <= k < m.len() implies is_entry(#[trigger] m[k]) by {
            assert(m[k] == es[k + 1]);
        }
        let v = XmpView { prefix, name, value: entities(trim(e.text)) };
        let t = Scan {
            stack: in_list(base, prefix, name, kind, kind == "Alt"@),
            out: if kind == "Alt"@ && taken {
                s.out
            } else {
                s.out.push(v)
            },
        };
        lemma_entries(b, j, m, t, l, prefix, name, base, kind, kind == "Alt"@);
        assert(in_list(base, prefix, name, kind, kind == "Alt"@) == in_list(
            base,
            prefix,
            name,
            kind,
            true,
        ));
        if kind == "Alt"@ {
            assert(t.out + seq![] =~= t.out);
            assert(values(prefix, name, es.take(1)) =~= seq![v]);
            if es.len() == 1 {
                assert(es.take(1) =~= es);
            }
            assert(s.out.push(v) =~= s.out + seq![v]);
            assert(s.out + seq![] =~= s.out);
        } else {
            assert(s.out.push(v) + values(prefix, name, m) =~= s.out + values(prefix, name, es));
        }
    }
}

proof fn lemma_starts(x: Seq<char>, y: Seq<char>, b: Seq<char>, i: int)
    requires
        at(b, i, x + y),
        x.len() > 0,
        x[0] == '<',
    ensures
        b[i] == '<',
{
    lemma_char(b, i, x + y, 0);
}

/// A list, from its opening tag to its closing one.
#[verifier::rlimit(40)]
proof fn lemma_list(
    b: Seq<char>,
    i: int,
    prefix: Seq<char>,
    name: Seq<char>,
    kind: Seq<char>,
    gaps: (Seq<char>, Seq<char>, Seq<char>, Seq<char>),
    entries: Seq<Entry>,
    s: Scan,
    l: Limits,
)
    requires
        is_property(Property::List { prefix, name, kind, gaps, entries }),
        at(b, i, property_text(Property::List { prefix, name, kind, gaps, entries })),
        ({
            let j = i + property_text(Property::List { prefix, name, kind, gaps, entries }).len();
            j + 1 < b.len() && b[j] == '<'
        }),
        s.stack.len() + 2 <= l.max_depth,
        s.out.len() + entries.len() <= l.max_tags,
    ensures
        elements(b, i, s, l) == elements(
            b,
            i + property_text(Property::List { prefix, name, kind, gaps, entries }).len(),
            Scan {
                stack: s.stack,
                out: s.out + property_tells(Property::List { prefix, name, kind, gaps, entries }),
            },
            l,
        ),
{
    lemma_rdf();
    let none: Seq<char> = seq![];
    let (oa, ob) = (opening(prefix, name, none) + gaps.0, opening("rdf"@, kind, none) + gaps.1);
    let (cb, ca) = (closing("rdf"@, kind) + gaps.2, closing(prefix, name) + gaps.3);
    let es = entries_text(entries);
    lemma_at(b, i, oa, ob + (es + (cb + ca)));
    let i1 = i + oa.len();
    lemma_at(b, i1, ob, es + (cb + ca));
    let i2 = i1 + ob.len();
    lemma_at(b, i2, es, cb + ca);
    let i3 = i2 + es.len();
    lemma_at(b, i3, cb, ca);
    let i4 = i3 + cb.len();
    lemma_char(b, i1, ob, 0);
    lemma_char(b, i3, cb, 0);
    lemma_char(b, i4, ca, 0);
    if entries.len() > 0 {
        let o = opening("rdf"@, "li"@, entries[0].rest);
        assert(es[0] == o[0]);
        lemma_char(b, i2, es, 0);
    }
    assert(b[i1] == '<' && b[i2] == '<' && b[i3] == '<' && b[i4] == '<');
    lemma_frame(b, i, prefix, name, none, gaps.0, s, l);
    let f1 = FrameView { prefix, name, is_alt: false, alt_taken: false };
    let s1 = Scan { stack: s.stack.push(f1), ..s };
    lemma_frame(b, i1, "rdf"@, kind, none, gaps.1, s1, l);
    let s2 = Scan { stack: in_list(s.stack, prefix, name, kind, false), ..s };
    assert(s1.stack.push(
        FrameView {
            prefix: "rdf"@,
            name: kind,
            is_alt: "rdf"@ == "rdf"@ && kind == "Alt"@,
            alt_taken: false,
        },
    ) =~= s2.stack);
    lemma_entries(b, i2, entries, s2, l, prefix, name, s.stack, kind, false);
    let out = s.out + property_tells(Property::List { prefix, name, kind, gaps, entries });
    let s3 = Scan { stack: in_list(s.stack, prefix, name, kind, entries.len() > 0), out };
    lemma_close(b, i3, "rdf"@, kind, gaps.2, s3, l);
    assert(s3.stack.drop_last() =~= s.stack.push(f1));
    let s4 = Scan { stack: s.stack.push(f1), out };
    lemma_close(b, i4, prefix, name, gaps.3, s4, l);
    assert(s4.stack.drop_last() =~= s.stack);
}

#[verifier::rlimit(40)]
proof fn lemma_property(b: Seq<char>, i: int, p: Property, s: Scan, l: Limits)
    requires
        is_property(p),
        at(b, i, property_text(p)),
        i + property_text(p).len() + 1 < b.len(),
        b[i + property_text(p).len()] == '<',
        s.stack.len() + 2 <= l.max_depth,
        s.stack.len() > 0 ==> s.stack.last().prefix == "rdf"@,
        s.out.len() + count(p) <= l.max_tags,
    ensures
        elements(b, i, s, l) == elements(
            b,
            i + property_text(p).len(),
            Scan { stack: s.stack, out: s.out + property_tells(p) },
            l,
        ),
{
    match p {
        Property::Text { prefix, name, rest, text, gap } => {
            let o = opening(prefix, name, rest);
            let c = closing(prefix, name) + gap;
            lemma_at(b, i, o + text, c);
            let j = i + o.len() + text.len();
            lemma_char(b, j, c, 0);
            lemma_leaf(b, i, prefix, name, rest, text, s, l);
            let t = leaf(prefix, name, text, s, l);
            assert(t.out =~= s.out + property_tells(p));
            lemma_close(b, j, prefix, name, gap, t, l);
        },
        Property::List { prefix, name, kind, gaps, entries } => {
            lemma_list(b, i, prefix, name, kind, gaps, entries, s, l);
        },
    }
}

/// How many values stand in it.
pub open spec fn count(p: Property) -> nat {
    match p {
        Property::Text { .. } => 1,
        Property::List { entries, .. } => entries.len(),
    }
}

pub open spec fn properties_text(ps: Seq<Property>) -> Seq<char>
    decreases ps.len(),
{
    if ps.len() == 0 {
        seq![]
    } else {
        property_text(ps[0]) + properties_text(ps.drop_first())
    }
}

pub open spec fn properties_tell(ps: Seq<Property>) -> Seq<XmpView>
    decreases ps.len(),
{
    if ps.len() == 0 {
        seq![]
    } else {
        property_tells(ps[0]) + properties_tell(ps.drop_first())
    }
}

pub open spec fn all_count(ps: Seq<Property>) -> nat
    decreases ps.len(),
{
    if ps.len() == 0 {
        0
    } else {
        count(ps[0]) + all_count(ps.drop_first())
    }
}

/// Properties as elements, inside elements of RDF, tell what stands in them.
pub proof fn xmp_elements_are_read(
    b: Seq<char>,
    i: int,
    ps: Seq<Property>,
    s: Scan,
    l: Limits,
)
    requires
        forall|k: int| 0 <= k < ps.len() ==> is_property(#[trigger] ps[k]),
        at(b, i, properties_text(ps)),
        i + properties_text(ps).len() + 1 < b.len(),
        b[i + properties_text(ps).len()] == '<',
        s.stack.len() + 2 <= l.max_depth,
        s.stack.len() > 0 ==> s.stack.last().prefix == "rdf"@,
        s.out.len() + all_count(ps) <= l.max_tags,
    ensures
        elements(b, i, s, l) == elements(
            b,
            i + properties_text(ps).len(),
            Scan { stack: s.stack, out: s.out + properties_tell(ps) },
            l,
        ),
    decreases ps.len(),
{
    if ps.len() == 0 {
        assert(s.out + properties_tell(ps) =~= s.out);
    } else {
        let p = ps[0];
        let m = ps.drop_first();
        assert(is_property(p));
        lemma_at(b, i, property_text(p), properties_text(m));
        let j = i + property_text(p).len();
        assert(b[j] == '<') by {
            if m.len() > 0 {
                assert(m[0] == ps[1]);
                assert(is_property(ps[1]));
                assert(property_text(m[0])[0] == '<');
                lemma_char(b, j, properties_text(m), 0);
            }
        }
        assert forall|k: int| 0 <= k < m.len() implies is_property(#[trigger] m[k]) by {
            assert(m[k] == ps[k + 1]);
        }
        lemma_property(b, i, p, s, l);
        let t = Scan { stack: s.stack, out: s.out + property_tells(p) };
        assert(property_tells(p).len() <= count(p));
        xmp_elements_are_read(b, j, m, t, l);
        assert(t.out + properties_tell(m) =~= s.out + properties_tell(ps));
    }
}

/// An attribute: what stands before it, its name, the quote around its value, and the value.
pub struct Attribute {
    pub before: Seq<char>,
    pub prefix: Seq<char>,
    pub name: Seq<char>,
    pub quote: char,
    pub value: Seq<char>,
}

pub open spec fn is_attribute(a: Attribute) -> bool {
    &&& a.before.len() > 0
    &&& !name_char(a.before[a.before.len() - 1])
    &&& forall|i: int| 0 <= i < a.before.len() ==> a.before[i] != '='
    &&& is_name(a.prefix)
    &&& is_name(a.name)
    &&& a.quote == '"' || a.quote == '\''
    &&& forall|i: int| 0 <= i < a.value.len() ==> a.value[i] != a.quote
}

pub open spec fn attribute_text(a: Attribute) -> Seq<char> {
    a.before + (full_name(a.prefix, a.name) + (seq!['=', a.quote] + (a.value + seq![a.quote])))
}

pub open spec fn attributes_text(xs: Seq<Attribute>) -> Seq<char>
    decreases xs.len(),
{
    if xs.len() == 0 {
        seq![]
    } else {
        attribute_text(xs[0]) + attributes_text(xs.drop_first())
    }
}

/// Attributes that declare, and those of RDF and XML themselves, tell nothing.
pub open spec fn attribute_tells(a: Attribute) -> Seq<XmpView> {
    if a.prefix == "xmlns"@ || a.prefix == "rdf"@ || a.prefix == "xml"@ || a.prefix == "x"@ {
        seq![]
    } else {
        seq![XmpView { prefix: a.prefix, name: a.name, value: entities(a.value) }]
    }
}

pub open spec fn attributes_tell(xs: Seq<Attribute>) -> Seq<XmpView>
    decreases xs.len(),
{
    if xs.len() == 0 {
        seq![]
    } else {
        attribute_tells(xs[0]) + attributes_tell(xs.drop_first())
    }
}

proof fn lemma_no_sign(b: Seq<char>, i: int, j: int, out: Seq<XmpView>, l: Limits)
    requires
        0 <= i <= j <= b.len(),
        forall|k: int| i <= k < j ==> b[k] != '=',
    ensures
        attributes(b, i, out, l) == attributes(b, j, out, l),
    decreases j - i,
{
    if i < j && i + 1 < b.len() {
        lemma_no_sign(b, i + 1, j, out, l);
    }
}

proof fn lemma_back_name(b: Seq<char>, i: int, n: int)
    requires
        0 < n <= i <= b.len(),
        forall|j: int| n <= j < i ==> name_char(#[trigger] b[j]),
        !name_char(b[n - 1]),
    ensures
        back_name(b, i) == n,
    decreases i - n,
{
    if i > n {
        assert(name_char(b[i - 1]));
        lemma_back_name(b, i - 1, n);
    }
}

#[verifier::rlimit(40)]
proof fn lemma_attribute(b: Seq<char>, i: int, a: Attribute, out: Seq<XmpView>, l: Limits)
    requires
        is_attribute(a),
        at(b, i, attribute_text(a)),
        out.len() < l.max_tags,
    ensures
        attributes(b, i, out, l) == attributes(
            b,
            i + attribute_text(a).len(),
            out + attribute_tells(a),
            l,
        ),
{
    let q = full_name(a.prefix, a.name);
    let sign = seq!['=', a.quote];
    let z = a.value + seq![a.quote];
    lemma_at(b, i, a.before, q + (sign + z));
    let n = i + a.before.len();
    lemma_at(b, n, q, sign + z);
    let e = n + q.len();
    lemma_at(b, e, sign, z);
    let v = e + 2;
    lemma_at(b, v, a.value, seq![a.quote]);
    lemma_name_chars(a.prefix, a.name);
    assert forall|k: int| n <= k < e implies name_char(#[trigger] b[k]) by {
        lemma_char(b, n, q, k - n);
        assert(name_char(q[k - n]));
    }
    assert forall|k: int| i <= k < e implies b[k] != '=' by {
        if k < n {
            lemma_char(b, i, a.before, k - i);
        } else {
            assert(name_char(b[k]));
        }
    }
    lemma_no_sign(b, i, e, out, l);
    lemma_char(b, e, sign, 0);
    lemma_char(b, e, sign, 1);
    lemma_char(b, i, a.before, a.before.len() - 1);
    assert(b[n - 1] == a.before[a.before.len() - 1]);
    assert(name_char(b[e - 1]));
    assert(!ascii_white(b[e - 1]));
    assert(back_white(b, e) == e);
    lemma_back_name(b, e, n);
    let ve = v + a.value.len();
    assert forall|k: int| v <= k < ve implies b[k] != a.quote by {
        lemma_char(b, v, a.value, k - v);
    }
    lemma_char(b, ve, seq![a.quote], 0);
    lemma_find(b, a.quote, v, ve);
    assert(b.subrange(n, e) =~= q);
    assert(b.subrange(v, ve) =~= a.value);
    lemma_split(a.prefix, a.name);
    assert(with_attribute(out, l, q, a.value) =~= out + attribute_tells(a));
}

/// Attributes tell what stands in them, up to text without another.
pub proof fn xmp_attributes_are_read(
    b: Seq<char>,
    i: int,
    xs: Seq<Attribute>,
    out: Seq<XmpView>,
    l: Limits,
)
    requires
        forall|k: int| 0 <= k < xs.len() ==> is_attribute(#[trigger] xs[k]),
        at(b, i, attributes_text(xs)),
        forall|k: int| i + attributes_text(xs).len() <= k < b.len() ==> b[k] != '=',
        out.len() + xs.len() <= l.max_tags,
    ensures
        attributes(b, i, out, l) == out + attributes_tell(xs),
    decreases xs.len(),
{
    if xs.len() == 0 {
        lemma_no_sign(b, i, b.len() as int, out, l);
        assert(out + attributes_tell(xs) =~= out);
    } else {
        let a = xs[0];
        let m = xs.drop_first();
        assert(is_attribute(a));
        lemma_at(b, i, attribute_text(a), attributes_text(m));
        lemma_attribute(b, i, a, out, l);
        assert forall|k: int| 0 <= k < m.len() implies is_attribute(#[trigger] m[k]) by {
            assert(m[k] == xs[k + 1]);
        }
        let t = out + attribute_tells(a);
        xmp_attributes_are_read(b, i + attribute_text(a).len(), m, t, l);
        assert(t + attributes_tell(m) =~= out + attributes_tell(xs));
    }
}

/// A piece of a text: plain, or an entity.
pub enum Glyphs {
    Plain(Seq<char>),
    Less,
    Greater,
    Ampersand,
    Quote,
    Apostrophe,
}

pub open spec fn glyphs_text(g: Glyphs) -> Seq<char> {
    match g {
        Glyphs::Plain(s) => s,
        Glyphs::Less => "&lt;"@,
        Glyphs::Greater => "&gt;"@,
        Glyphs::Ampersand => "&amp;"@,
        Glyphs::Quote => "&quot;"@,
        Glyphs::Apostrophe => "&apos;"@,
    }
}

pub open spec fn glyphs_mean(g: Glyphs) -> Seq<char> {
    match g {
        Glyphs::Plain(s) => s,
        Glyphs::Less => seq!['<'],
        Glyphs::Greater => seq!['>'],
        Glyphs::Ampersand => seq!['&'],
        Glyphs::Quote => seq!['"'],
        Glyphs::Apostrophe => seq!['\''],
    }
}

pub open spec fn all_glyphs(gs: Seq<Glyphs>) -> Seq<char>
    decreases gs.len(),
{
    if gs.len() == 0 {
        seq![]
    } else {
        glyphs_text(gs[0]) + all_glyphs(gs.drop_first())
    }
}

pub open spec fn all_meant(gs: Seq<Glyphs>) -> Seq<char>
    decreases gs.len(),
{
    if gs.len() == 0 {
        seq![]
    } else {
        glyphs_mean(gs[0]) + all_meant(gs.drop_first())
    }
}

#[verifier::rlimit(40)]
proof fn lemma_plain(s: Seq<char>, x: Seq<char>)
    requires
        forall|i: int| 0 <= i < s.len() ==> s[i] != '&',
    ensures
        entities(s + x) == s + entities(x),
{
    let t = s + x;
    let n = s.len() as int;
    lemma_find_on(s, x, '&');
    let k = find(x, '&', 0);
    lemma_find_bounds(x, '&', 0);
    if k >= x.len() {
        assert(entities(t) =~= s + entities(x));
    } else {
        lemma_find_shift(s, x, ';', k);
        let m = find(x, ';', k);
        lemma_find_bounds(x, ';', k);
        assert(t.subrange(0, n + k + 1) =~= s + x.subrange(0, k + 1));
        assert(t.subrange(n + k + 1, t.len() as int) =~= x.subrange(k + 1, x.len() as int));
        if m < x.len() && m > k {
            assert(t.subrange(n + k + 1, n + m) =~= x.subrange(k + 1, m));
            assert(t.subrange(0, n + k) =~= s + x.subrange(0, k));
            assert(t.subrange(0, n + m + 1) =~= s + x.subrange(0, m + 1));
            assert(t.subrange(n + m + 1, t.len() as int) =~= x.subrange(m + 1, x.len() as int));
        }
        assert(entities(t) =~= s + entities(x));
    }
}

proof fn lemma_find_bounds(s: Seq<char>, c: char, i: int)
    requires
        0 <= i <= s.len(),
    ensures
        i <= find(s, c, i) <= s.len(),
    decreases s.len() - i,
{
    if i < s.len() && s[i] != c {
        lemma_find_bounds(s, c, i + 1);
    }
}

proof fn lemma_find_shift(s: Seq<char>, x: Seq<char>, c: char, i: int)
    requires
        0 <= i <= x.len(),
    ensures
        find(s + x, c, s.len() + i) == s.len() + find(x, c, i),
    decreases x.len() - i,
{
    if i < x.len() {
        assert((s + x)[s.len() + i] == x[i]);
        if x[i] != c {
            lemma_find_shift(s, x, c, i + 1);
        }
    }
}

proof fn lemma_find_from(s: Seq<char>, x: Seq<char>, c: char, i: int)
    requires
        0 <= i <= s.len(),
        forall|j: int| 0 <= j < s.len() ==> s[j] != c,
    ensures
        find(s + x, c, i) == find(s + x, c, s.len() as int),
    decreases s.len() - i,
{
    if i < s.len() {
        assert((s + x)[i] == s[i]);
        lemma_find_from(s, x, c, i + 1);
    }
}

proof fn lemma_find_on(s: Seq<char>, x: Seq<char>, c: char)
    requires
        forall|j: int| 0 <= j < s.len() ==> s[j] != c,
    ensures
        find(s + x, c, 0) == s.len() + find(x, c, 0),
{
    lemma_find_from(s, x, c, 0);
    lemma_find_shift(s, x, c, 0);
}

/// An entity before a text.
proof fn lemma_entity(word: Seq<char>, c: char, x: Seq<char>)
    requires
        entity(word) == Some(c),
        forall|i: int| 0 <= i < word.len() ==> word[i] != ';',
    ensures
        entities(seq!['&'] + word + seq![';'] + x) == seq![c] + entities(x),
{
    let t = seq!['&'] + word + seq![';'] + x;
    let n = word.len() as int + 1;
    assert(t[0] == '&');
    assert(find(t, '&', 0) == 0);
    assert forall|j: int| 0 <= j < n implies t[j] != ';' by {
        if j > 0 {
            assert(t[j] == word[j - 1]);
        }
    }
    assert(t[n] == ';');
    lemma_find(t, ';', 0, n);
    assert(t.subrange(1, n) =~= word);
    assert(t.subrange(n + 1, t.len() as int) =~= x);
    assert(t.subrange(0, 0).push(c) =~= seq![c]);
}

proof fn lemma_entity_words()
    ensures
        entity("lt"@) == Some('<'),
        entity("gt"@) == Some('>'),
        entity("amp"@) == Some('&'),
        entity("quot"@) == Some('"'),
        entity("apos"@) == Some('\''),
{
    reveal_strlit("lt");
    reveal_strlit("gt");
    reveal_strlit("amp");
    reveal_strlit("quot");
    reveal_strlit("apos");
    assert("lt"@[0] == 'l' && "gt"@[0] == 'g' && "amp"@[0] == 'a' && "quot"@[0] == 'q');
    assert("apos"@[0] == 'a' && "apos"@[1] == 'p' && "amp"@[1] == 'm');
}

/// Entities are resolved wherever they stand.
pub proof fn entities_are_resolved(gs: Seq<Glyphs>)
    requires
        forall|i: int|
            0 <= i < gs.len() ==> ((#[trigger] gs[i]) matches Glyphs::Plain(s) ==> forall|j: int|
                0 <= j < s.len() ==> s[j] != '&'),
    ensures
        entities(all_glyphs(gs)) == all_meant(gs),
    decreases gs.len(),
{
    reveal_strlit("lt");
    reveal_strlit("gt");
    reveal_strlit("amp");
    reveal_strlit("quot");
    reveal_strlit("apos");
    reveal_strlit("&lt;");
    reveal_strlit("&gt;");
    reveal_strlit("&amp;");
    reveal_strlit("&quot;");
    reveal_strlit("&apos;");
    lemma_entity_words();
    if gs.len() > 0 {
        let m = gs.drop_first();
        assert forall|i: int| 0 <= i < m.len() implies ((#[trigger] m[i]) matches Glyphs::Plain(s)
            ==> forall|j: int| 0 <= j < s.len() ==> s[j] != '&') by {
            assert(m[i] == gs[i + 1]);
        }
        entities_are_resolved(m);
        let x = all_glyphs(m);
        match gs[0] {
            Glyphs::Plain(s) => lemma_plain(s, x),
            Glyphs::Less => {
                lemma_entity("lt"@, '<', x);
                assert(seq!['&'] + "lt"@ + seq![';'] =~= "&lt;"@);
            },
            Glyphs::Greater => {
                lemma_entity("gt"@, '>', x);
                assert(seq!['&'] + "gt"@ + seq![';'] =~= "&gt;"@);
            },
            Glyphs::Ampersand => {
                lemma_entity("amp"@, '&', x);
                assert(seq!['&'] + "amp"@ + seq![';'] =~= "&amp;"@);
            },
            Glyphs::Quote => {
                lemma_entity("quot"@, '"', x);
                assert(seq!['&'] + "quot"@ + seq![';'] =~= "&quot;"@);
            },
            Glyphs::Apostrophe => {
                lemma_entity("apos"@, '\'', x);
                assert(seq!['&'] + "apos"@ + seq![';'] =~= "&apos;"@);
            },
        }
    }
}

/// A packet: one description with attributes, and properties as elements in it.
pub struct Packet {
    pub attributes: Seq<Attribute>,
    pub properties: Seq<Property>,
    pub gaps: (Seq<char>, Seq<char>, Seq<char>),
}

pub open spec fn packet_front(p: Packet) -> Seq<char> {
    opening("rdf"@, "RDF"@, seq![]) + p.gaps.0
}

pub open spec fn packet_back(p: Packet) -> Seq<char> {
    closing("rdf"@, "Description"@) + p.gaps.2
}

pub open spec fn packet_text(p: Packet) -> Seq<char> {
    packet_front(p) + ((opening("rdf"@, "Description"@, attributes_text(p.attributes)) + p.gaps.1)
        + (properties_text(p.properties) + (packet_back(p) + closing("rdf"@, "RDF"@))))
}

/// Equals signs stand in the attributes only.
pub open spec fn is_packet(p: Packet) -> bool {
    &&& is_gap(p.gaps.0)
    &&& is_gap(p.gaps.1)
    &&& is_gap(p.gaps.2)
    &&& is_rest(attributes_text(p.attributes))
    &&& forall|k: int| 0 <= k < p.attributes.len() ==> is_attribute(#[trigger] p.attributes[k])
    &&& forall|k: int| 0 <= k < p.properties.len() ==> is_property(#[trigger] p.properties[k])
    &&& forall|k: int| 0 <= k < p.gaps.0.len() ==> p.gaps.0[k] != '='
    &&& forall|k: int| 0 <= k < p.gaps.1.len() ==> p.gaps.1[k] != '='
    &&& forall|k: int| 0 <= k < p.gaps.2.len() ==> p.gaps.2[k] != '='
    &&& forall|k: int|
        0 <= k < properties_text(p.properties).len() ==> properties_text(p.properties)[k] != '='
}

proof fn lemma_description()
    ensures
        is_name("rdf"@),
        is_name("RDF"@),
        is_name("Description"@),
        "RDF"@ != "Description"@,
        "RDF"@ != "Alt"@,
        "Description"@ != "Alt"@,
{
    reveal_strlit("rdf");
    reveal_strlit("RDF");
    reveal_strlit("Description");
    reveal_strlit("Alt");
    assert("RDF"@.len() == 3 && "Description"@.len() == 11);
    assert("RDF"@[0] == 'R' && "Alt"@[0] == 'A');
}

/// Where the parts of a packet stand.
proof fn lemma_packet_places(p: Packet)
    requires
        is_packet(p),
    ensures
        ({
            let b = packet_text(p);
            let d = opening("rdf"@, "Description"@, attributes_text(p.attributes)) + p.gaps.1;
            let i1 = packet_front(p).len() as int;
            let i2 = i1 + d.len();
            let i3 = i2 + properties_text(p.properties).len();
            let i4 = i3 + packet_back(p).len();
            &&& at(b, 0, packet_front(p))
            &&& at(b, i1, d)
            &&& at(b, i2, properties_text(p.properties))
            &&& at(b, i3, packet_back(p))
            &&& at(b, i4, closing("rdf"@, "RDF"@))
            &&& b[i1] == '<' && b[i2] == '<' && b[i3] == '<' && b[i4] == '<'
            &&& b.len() == i4 + closing("rdf"@, "RDF"@).len()
        }),
{
    let b = packet_text(p);
    let f = packet_front(p);
    let d = opening("rdf"@, "Description"@, attributes_text(p.attributes)) + p.gaps.1;
    let t = properties_text(p.properties);
    let k = packet_back(p);
    let z = closing("rdf"@, "RDF"@);
    assert(b.subrange(0, b.len() as int) =~= b);
    lemma_at(b, 0, f, d + (t + (k + z)));
    let i1 = f.len() as int;
    lemma_at(b, i1, d, t + (k + z));
    let i2 = i1 + d.len();
    lemma_at(b, i2, t, k + z);
    let i3 = i2 + t.len();
    lemma_at(b, i3, k, z);
    lemma_char(b, i1, d, 0);
    lemma_char(b, i3, k, 0);
    lemma_char(b, i3 + k.len(), z, 0);
    if p.properties.len() > 0 {
        let q = p.properties[0];
        assert(is_property(q));
        assert(property_text(q)[0] == '<');
        lemma_char(b, i2, t, 0);
    }
}

/// The elements of a packet.
#[verifier::rlimit(40)]
proof fn lemma_packet_elements(p: Packet, out: Seq<XmpView>, l: Limits)
    requires
        is_packet(p),
        l.max_depth >= 4,
        out.len() + all_count(p.properties) <= l.max_tags,
    ensures
        elements(packet_text(p), 0, Scan { stack: seq![], out }, l) == out + properties_tell(
            p.properties,
        ),
{
    let b = packet_text(p);
    lemma_description();
    let none: Seq<char> = seq![];
    let i1 = packet_front(p).len() as int;
    let i2 = i1 + (opening("rdf"@, "Description"@, attributes_text(p.attributes)) + p.gaps.1).len();
    let i3 = i2 + properties_text(p.properties).len();
    let i4 = i3 + packet_back(p).len();
    lemma_packet_places(p);
    let s0 = Scan { stack: seq![], out };
    lemma_frame(b, 0, "rdf"@, "RDF"@, none, p.gaps.0, s0, l);
    let f1 = FrameView { prefix: "rdf"@, name: "RDF"@, is_alt: false, alt_taken: false };
    let f2 = FrameView { prefix: "rdf"@, name: "Description"@, is_alt: false, alt_taken: false };
    let s1 = Scan { stack: s0.stack.push(f1), out };
    lemma_frame(b, i1, "rdf"@, "Description"@, attributes_text(p.attributes), p.gaps.1, s1, l);
    let s2 = Scan { stack: s1.stack.push(f2), out };
    xmp_elements_are_read(b, i2, p.properties, s2, l);
    let s3 = Scan { stack: s2.stack, out: out + properties_tell(p.properties) };
    lemma_close(b, i3, "rdf"@, "Description"@, p.gaps.2, s3, l);
    assert(s3.stack.drop_last() =~= s1.stack);
    let s4 = Scan { stack: s1.stack, out: s3.out };
    lemma_last_tag(b, i4, s4, l);
}

/// A closing tag with which a text ends.
proof fn lemma_last_tag(b: Seq<char>, i: int, s: Scan, l: Limits)
    requires
        at(b, i, closing("rdf"@, "RDF"@)),
        b.len() == i + closing("rdf"@, "RDF"@).len(),
    ensures
        elements(b, i, s, l) == s.out,
{
    lemma_description();
    lemma_closing(b, i, "rdf"@, "RDF"@);
    let gt = b.len() - 1;
    let stack = if s.stack.len() > 0 && s.stack.last().prefix == "rdf"@ && s.stack.last().name
        == "RDF"@ {
        s.stack.drop_last()
    } else {
        s.stack
    };
    assert(elements(b, i, s, l) == elements(b, gt, Scan { stack, ..s }, l));
    assert(elements(b, gt, Scan { stack, ..s }, l) == s.out);
}

/// The attributes of a packet.
#[verifier::rlimit(40)]
proof fn lemma_packet_attributes(p: Packet, out: Seq<XmpView>, l: Limits)
    requires
        is_packet(p),
        out.len() + p.attributes.len() <= l.max_tags,
    ensures
        attributes(packet_text(p), 0, out, l) == out + attributes_tell(p.attributes),
{
    let b = packet_text(p);
    lemma_description();
    let xs = attributes_text(p.attributes);
    let q = full_name("rdf"@, "Description"@);
    let a = packet_front(p) + (seq!['<'] + q);
    let c = seq!['>'] + p.gaps.1 + (properties_text(p.properties) + (packet_back(p) + closing(
        "rdf"@,
        "RDF"@,
    )));
    assert(b =~= a + (xs + c));
    assert(b.subrange(0, b.len() as int) =~= b);
    lemma_at(b, 0, a, xs + c);
    let i = a.len() as int;
    lemma_at(b, i, xs, c);
    lemma_no_equals(p);
    assert forall|k: int| 0 <= k < i implies b[k] != '=' by {
        lemma_char(b, 0, a, k);
    }
    assert forall|k: int| i + xs.len() <= k < b.len() implies b[k] != '=' by {
        lemma_char(b, i + xs.len(), c, k - i - xs.len());
    }
    lemma_no_sign(b, 0, i, out, l);
    xmp_attributes_are_read(b, i, p.attributes, out, l);
}

#[verifier::rlimit(40)]
proof fn lemma_no_equals(p: Packet)
    requires
        is_packet(p),
    ensures
        ({
            let q = full_name("rdf"@, "Description"@);
            let a = packet_front(p) + (seq!['<'] + q);
            let c = seq!['>'] + p.gaps.1 + (properties_text(p.properties) + (packet_back(p)
                + closing("rdf"@, "RDF"@)));
            &&& forall|k: int| 0 <= k < a.len() ==> a[k] != '='
            &&& forall|k: int| 0 <= k < c.len() ==> c[k] != '='
        }),
{
    lemma_description();
    let q = full_name("rdf"@, "Description"@);
    let r = full_name("rdf"@, "RDF"@);
    lemma_name_chars("rdf"@, "Description"@);
    lemma_name_chars("rdf"@, "RDF"@);
    assert forall|k: int| 0 <= k < q.len() implies q[k] != '=' by {
        assert(name_char(q[k]));
    }
    assert forall|k: int| 0 <= k < r.len() implies r[k] != '=' by {
        assert(name_char(r[k]));
    }
}

/// A packet is decoded into the properties in its attributes and then those in its elements,
/// without a warning.
pub proof fn xmp_packets_are_decoded(
    bytes: Seq<u8>,
    p: Packet,
    out: Seq<XmpView>,
    warnings: Seq<Warning>,
    l: Limits,
)
    requires
        valid_utf8(bytes),
        decode_utf8(bytes) == packet_text(p),
        is_packet(p),
        bytes.len() <= l.max_payload_bytes,
        l.max_depth >= 4,
        out.len() + p.attributes.len() + all_count(p.properties) <= l.max_tags,
    ensures
        decoded(bytes, out, warnings, l) == (
            out + attributes_tell(p.attributes) + properties_tell(p.properties),
            warnings,
        ),
{
    lemma_packet_attributes(p, out, l);
    lemma_few(p.attributes);
    lemma_packet_elements(p, out + attributes_tell(p.attributes), l);
}

proof fn lemma_few(xs: Seq<Attribute>)
    ensures
        attributes_tell(xs).len() <= xs.len(),
    decreases xs.len(),
{
    if xs.len() > 0 {
        lemma_few(xs.drop_first());
    }
}

} // verus!
