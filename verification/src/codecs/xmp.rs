//! XMP: an RDF/XML packet, scanned without validation into properties. Attributes and
//! elements with plain text both count; namespaces are not resolved.
use vstd::prelude::*;

use crate::limits::Limits;
use crate::model::{xmp_views, WarnKind, Warning, XmpProperty, XmpView};
use crate::text::{chars_are, chars_of, string_of, sub_chars, trim, trimmed, utf8, utf8_text};

verus! {

broadcast use crate::model::group_views;

/// A character of an XML name, in the ASCII range.
pub open spec fn name_char(c: char) -> bool {
    ||| 'a' <= c <= 'z'
    ||| 'A' <= c <= 'Z'
    ||| '0' <= c <= '9'
    ||| c == ':'
    ||| c == '.'
    ||| c == '_'
    ||| c == '-'
}

/// White space as XML attributes are separated by.
pub open spec fn ascii_white(c: char) -> bool {
    c == ' ' || c == '\t' || c == '\n' || c == '\r' || c as u32 == 0x0C
}

/// Prefixes that structure the packet and never name a property.
pub open spec fn structural_prefix(px: Seq<char>) -> bool {
    px == "xmlns"@ || px == "rdf"@ || px == "xml"@ || px == "x"@
}

/// The index of the first `c` from `i` on, or the length where there is none.
pub open spec fn find(s: Seq<char>, c: char, i: int) -> int
    decreases s.len() - i,
{
    if i >= s.len() {
        s.len() as int
    } else if s[i] == c {
        i
    } else {
        find(s, c, i + 1)
    }
}

/// A name split at its first colon, where both parts hold something.
pub open spec fn split(q: Seq<char>) -> Option<(Seq<char>, Seq<char>)> {
    let k = find(q, ':', 0);
    if 0 < k && k + 1 < q.len() {
        Some((q.subrange(0, k), q.subrange(k + 1, q.len() as int)))
    } else {
        None
    }
}

/// The character that a basic XML entity stands for.
pub open spec fn entity(name: Seq<char>) -> Option<char> {
    if name == "lt"@ {
        Some('<')
    } else if name == "gt"@ {
        Some('>')
    } else if name == "amp"@ {
        Some('&')
    } else if name == "quot"@ {
        Some('"')
    } else if name == "apos"@ {
        Some('\'')
    } else {
        None
    }
}

/// `s` with the basic XML entities resolved. Others are kept as they stand.
pub open spec fn entities(s: Seq<char>) -> Seq<char>
    decreases s.len(),
{
    let amp = find(s, '&', 0);
    if s.len() == 0 || amp < 0 || amp >= s.len() {
        s
    } else {
        let semi = find(s, ';', amp);
        if semi <= amp || semi >= s.len() {
            s.subrange(0, amp + 1) + entities(s.subrange(amp + 1, s.len() as int))
        } else {
            (match entity(s.subrange(amp + 1, semi)) {
                Some(c) => s.subrange(0, amp).push(c),
                None => s.subrange(0, semi + 1),
            }) + entities(s.subrange(semi + 1, s.len() as int))
        }
    }
}

/// The properties once one more is added, as far as the bound on their number allows.
pub open spec fn with_prop(
    out: Seq<XmpView>,
    l: Limits,
    prefix: Seq<char>,
    name: Seq<char>,
    value: Seq<char>,
) -> Seq<XmpView> {
    if out.len() >= l.max_tags {
        out
    } else {
        out.push(XmpView { prefix, name, value: entities(value) })
    }
}

/// Where the white space that ends at `i` begins.
pub open spec fn back_white(b: Seq<char>, i: int) -> int
    decreases i,
{
    if i > 0 && ascii_white(b[i - 1]) {
        back_white(b, i - 1)
    } else {
        i
    }
}

/// Where the name that ends at `i` begins.
pub open spec fn back_name(b: Seq<char>, i: int) -> int
    decreases i,
{
    if i > 0 && name_char(b[i - 1]) {
        back_name(b, i - 1)
    } else {
        i
    }
}

/// The properties after the attribute that is named by `q`.
pub open spec fn with_attribute(out: Seq<XmpView>, l: Limits, q: Seq<char>, value: Seq<char>) -> Seq<
    XmpView,
> {
    match split(q) {
        Some((px, nm)) => if structural_prefix(px) {
            out
        } else {
            with_prop(out, l, px, nm, value)
        },
        None => out,
    }
}

/// The properties after the attributes `name="value"` from `i` on.
pub open spec fn attributes(b: Seq<char>, i: int, out: Seq<XmpView>, l: Limits) -> Seq<XmpView>
    decreases b.len() - i,
{
    if i + 1 >= b.len() {
        out
    } else if b[i] == '=' && (b[i + 1] == '"' || b[i + 1] == '\'') {
        let ne = back_white(b, i);
        let ns = back_name(b, ne);
        let ve = find(b, b[i + 1], i + 2);
        if ve < i || ve >= b.len() {
            out
        } else {
            attributes(
                b,
                ve + 1,
                with_attribute(out, l, b.subrange(ns, ne), b.subrange(i + 2, ve)),
                l,
            )
        }
    } else {
        attributes(b, i + 1, out, l)
    }
}

/// An open element.
pub struct FrameView {
    pub prefix: Seq<char>,
    pub name: Seq<char>,
    pub is_alt: bool,
    pub alt_taken: bool,
}

/// Where the name that starts at `i` ends.
pub open spec fn name_end(b: Seq<char>, i: int) -> int
    decreases b.len() - i,
{
    if i < b.len() && name_char(b[i]) {
        name_end(b, i + 1)
    } else {
        i
    }
}

/// The prefix and the local name of the name that starts at `i`; the prefix is empty
/// where there is none.
pub open spec fn qname(b: Seq<char>, i: int) -> (Seq<char>, Seq<char>) {
    let q = b.subrange(i, name_end(b, i));
    match split(q) {
        Some(p) => p,
        None => (Seq::empty(), q),
    }
}

/// The innermost open element that is not of RDF.
pub open spec fn owner(stack: Seq<FrameView>) -> Option<FrameView>
    decreases stack.len(),
{
    if stack.len() == 0 {
        None
    } else if stack.last().prefix != "rdf"@ {
        Some(stack.last())
    } else {
        owner(stack.drop_last())
    }
}

/// Open elements and properties.
pub struct Scan {
    pub stack: Seq<FrameView>,
    pub out: Seq<XmpView>,
}

/// What an element with the plain text `content` adds. An `rdf:li` counts for the
/// property that it is in; of the items of an `rdf:Alt` only the first one counts.
pub open spec fn leaf(
    px: Seq<char>,
    nm: Seq<char>,
    content: Seq<char>,
    s: Scan,
    l: Limits,
) -> Scan {
    let val = trim(content);
    if px == "rdf"@ && nm == "li"@ {
        if s.stack.len() > 0 && s.stack.last().is_alt && s.stack.last().alt_taken {
            s
        } else {
            let stack = if s.stack.len() > 0 && s.stack.last().is_alt {
                s.stack.drop_last().push(FrameView { alt_taken: true, ..s.stack.last() })
            } else {
                s.stack
            };
            match owner(stack) {
                Some(f) => Scan { stack, out: with_prop(s.out, l, f.prefix, f.name, val) },
                None => Scan { stack, out: s.out },
            }
        }
    } else if px != "rdf"@ && px != "x"@ {
        Scan { stack: s.stack, out: with_prop(s.out, l, px, nm, val) }
    } else {
        s
    }
}

/// The properties after the elements from `i` on.
pub open spec fn elements(b: Seq<char>, i: int, s: Scan, l: Limits) -> Seq<XmpView>
    decreases b.len() - i,
{
    if i + 1 >= b.len() {
        s.out
    } else if b[i] != '<' {
        elements(b, i + 1, s, l)
    } else if b[i + 1] == '!' || b[i + 1] == '?' {
        let gt = find(b, '>', i + 1);
        if gt <= i || gt > b.len() {
            s.out
        } else {
            elements(b, gt, s, l)
        }
    } else if b[i + 1] == '/' {
        let (px, nm) = qname(b, i + 2);
        let gt = find(b, '>', name_end(b, i + 2));
        let stack = if s.stack.len() > 0 && s.stack.last().prefix == px && s.stack.last().name
            == nm {
            s.stack.drop_last()
        } else {
            s.stack
        };
        if gt <= i || gt > b.len() {
            s.out
        } else {
            elements(b, gt, Scan { stack, ..s }, l)
        }
    } else {
        let (px, nm) = qname(b, i + 1);
        let gt = find(b, '>', name_end(b, i + 1));
        if gt <= i || gt >= b.len() {
            s.out
        } else if b[gt - 1] == '/' || px.len() == 0 {
            elements(b, gt + 1, s, l)
        } else {
            let j = find(b, '<', gt + 1);
            let content = b.subrange(gt + 1, j);
            if gt < j < b.len() && trim(content).len() > 0 {
                elements(b, j, leaf(px, nm, content, s, l), l)
            } else {
                let frame = FrameView {
                    prefix: px,
                    name: nm,
                    is_alt: px == "rdf"@ && nm == "Alt"@,
                    alt_taken: false,
                };
                elements(
                    b,
                    gt + 1,
                    if s.stack.len() < l.max_depth {
                        Scan { stack: s.stack.push(frame), ..s }
                    } else {
                        s
                    },
                    l,
                )
            }
        }
    }
}

/// The properties and warnings once `packet` is decoded on top of `out` and `warnings`:
/// first all attributes, then all elements. A packet that is too long or not UTF-8
/// adds a warning only.
pub open spec fn decoded(
    packet: Seq<u8>,
    out: Seq<XmpView>,
    warnings: Seq<Warning>,
    l: Limits,
) -> (Seq<XmpView>, Seq<Warning>) {
    match utf8(packet) {
        Some(b) if packet.len() <= l.max_payload_bytes => (
            elements(b, 0, Scan { stack: seq![], out: attributes(b, 0, out, l) }, l),
            warnings,
        ),
        _ => (out, warnings.push(Warning { offset: 0, kind: WarnKind::Truncated })),
    }
}

proof fn lemma_find(s: Seq<char>, c: char, i: int)
    requires
        0 <= i <= s.len(),
    ensures
        i <= find(s, c, i) <= s.len(),
        find(s, c, i) < s.len() ==> s[find(s, c, i)] == c,
        forall|j: int| i <= j < find(s, c, i) ==> s[j] != c,
    decreases s.len() - i,
{
    if i < s.len() && s[i] != c {
        lemma_find(s, c, i + 1);
    }
}

proof fn lemma_name_end(b: Seq<char>, i: int)
    requires
        0 <= i <= b.len(),
    ensures
        i <= name_end(b, i) <= b.len(),
    decreases b.len() - i,
{
    if i < b.len() && name_char(b[i]) {
        lemma_name_end(b, i + 1);
    }
}

/// Whether `b` is `a` with properties added, no more than the bound allows.
pub open spec fn extends(a: Seq<XmpView>, b: Seq<XmpView>, l: Limits) -> bool {
    &&& a.is_prefix_of(b)
    &&& b.len() <= if a.len() > l.max_tags {
        a.len() as int
    } else {
        l.max_tags as int
    }
}

proof fn lemma_extends_trans(a: Seq<XmpView>, b: Seq<XmpView>, c: Seq<XmpView>, l: Limits)
    requires
        extends(a, b, l),
        extends(b, c, l),
    ensures
        extends(a, c, l),
{
    assert(a.is_prefix_of(c));
}

proof fn lemma_attributes_extend(b: Seq<char>, i: int, out: Seq<XmpView>, l: Limits)
    ensures
        extends(out, attributes(b, i, out, l), l),
    decreases b.len() - i,
{
    if i + 1 >= b.len() {
    } else if b[i] == '=' && (b[i + 1] == '"' || b[i + 1] == '\'') {
        let ne = back_white(b, i);
        let ns = back_name(b, ne);
        let ve = find(b, b[i + 1], i + 2);
        if ve < i || ve >= b.len() {
        } else {
            let next = with_attribute(out, l, b.subrange(ns, ne), b.subrange(i + 2, ve));
            assert(extends(out, next, l));
            lemma_attributes_extend(b, ve + 1, next, l);
            lemma_extends_trans(out, next, attributes(b, ve + 1, next, l), l);
        }
    } else {
        lemma_attributes_extend(b, i + 1, out, l);
    }
}

proof fn lemma_elements_extend(b: Seq<char>, i: int, s: Scan, l: Limits)
    ensures
        extends(s.out, elements(b, i, s, l), l),
    decreases b.len() - i,
{
    if i + 1 >= b.len() {
    } else if b[i] != '<' {
        lemma_elements_extend(b, i + 1, s, l);
    } else if b[i + 1] == '!' || b[i + 1] == '?' {
        let gt = find(b, '>', i + 1);
        if i < gt <= b.len() {
            lemma_elements_extend(b, gt, s, l);
        }
    } else if b[i + 1] == '/' {
        let (px, nm) = qname(b, i + 2);
        let gt = find(b, '>', name_end(b, i + 2));
        let stack = if s.stack.len() > 0 && s.stack.last().prefix == px && s.stack.last().name
            == nm {
            s.stack.drop_last()
        } else {
            s.stack
        };
        if i < gt <= b.len() {
            lemma_elements_extend(b, gt, Scan { stack, ..s }, l);
        }
    } else {
        let (px, nm) = qname(b, i + 1);
        let gt = find(b, '>', name_end(b, i + 1));
        if gt <= i || gt >= b.len() {
        } else if b[gt - 1] == '/' || px.len() == 0 {
            lemma_elements_extend(b, gt + 1, s, l);
        } else {
            let j = find(b, '<', gt + 1);
            let content = b.subrange(gt + 1, j);
            if gt < j < b.len() && trim(content).len() > 0 {
                let next = leaf(px, nm, content, s, l);
                assert(extends(s.out, next.out, l));
                lemma_elements_extend(b, j, next, l);
                lemma_extends_trans(s.out, next.out, elements(b, j, next, l), l);
            } else {
                let frame = FrameView {
                    prefix: px,
                    name: nm,
                    is_alt: px == "rdf"@ && nm == "Alt"@,
                    alt_taken: false,
                };
                if s.stack.len() < l.max_depth {
                    lemma_elements_extend(b, gt + 1, Scan { stack: s.stack.push(frame), ..s }, l);
                } else {
                    lemma_elements_extend(b, gt + 1, s, l);
                }
            }
        }
    }
}

/// Decoding keeps every property and warning that was there, and adds properties only
/// up to the bound on their number.
pub proof fn decoded_is_bounded(
    packet: Seq<u8>,
    out: Seq<XmpView>,
    warnings: Seq<Warning>,
    l: Limits,
)
    ensures
        extends(out, decoded(packet, out, warnings, l).0, l),
        warnings.is_prefix_of(decoded(packet, out, warnings, l).1),
{
    match utf8(packet) {
        Some(b) => {
            let mid = attributes(b, 0, out, l);
            lemma_attributes_extend(b, 0, out, l);
            lemma_elements_extend(b, 0, Scan { stack: seq![], out: mid }, l);
            lemma_extends_trans(
                out,
                mid,
                elements(b, 0, Scan { stack: seq![], out: mid }, l),
                l,
            );
        },
        None => {},
    }
}

/// Decodes an XMP packet.
pub fn decode(
    packet: &[u8],
    out: &mut Vec<XmpProperty>,
    warnings: &mut Vec<Warning>,
    limits: &Limits,
)
    ensures
        (xmp_views(final(out)@), final(warnings)@) == decoded(
            packet@,
            xmp_views(old(out)@),
            old(warnings)@,
            *limits,
        ),
        extends(xmp_views(old(out)@), xmp_views(final(out)@), *limits),
{
    proof {
        decoded_is_bounded(packet@, xmp_views(out@), warnings@, *limits);
    }
    if packet.len() > limits.max_payload_bytes {
        warnings.push(Warning { offset: 0, kind: WarnKind::Truncated });
        return ;
    }
    match utf8_text(packet) {
        Some(t) => {
            let text = chars_of(t);
            scan_attributes(text.as_slice(), out, limits);
            scan_elements(text.as_slice(), out, limits);
        },
        None => {
            warnings.push(Warning { offset: 0, kind: WarnKind::Truncated });
        },
    }
}

fn is_name_char(c: char) -> (r: bool)
    ensures
        r == name_char(c),
{
    ('a' <= c && c <= 'z') || ('A' <= c && c <= 'Z') || ('0' <= c && c <= '9') || c == ':' || c
        == '.' || c == '_' || c == '-'
}

fn is_ascii_white(c: char) -> (r: bool)
    ensures
        r == ascii_white(c),
{
    c == ' ' || c == '\t' || c == '\n' || c == '\r' || c as u32 == 0x0C
}

fn is_structural_prefix(px: &[char]) -> (r: bool)
    ensures
        r == structural_prefix(px@),
{
    chars_are(px, "xmlns") || chars_are(px, "rdf") || chars_are(px, "xml") || chars_are(px, "x")
}

/// The index of the first `c` from `i` on, or the length where there is none.
fn find_char(s: &[char], c: char, i: usize) -> (r: usize)
    requires
        i <= s@.len(),
    ensures
        r == find(s@, c, i as int),
        i <= r <= s@.len(),
{
    let mut k: usize = i;
    while k < s.len() && s[k] != c
        invariant
            i <= k <= s@.len(),
            find(s@, c, k as int) == find(s@, c, i as int),
        decreases s@.len() - k,
    {
        k += 1;
    }
    k
}

fn split_prefix<'a>(q: &'a [char]) -> (r: Option<(&'a [char], &'a [char])>)
    ensures
        match r {
            Some((px, nm)) => split(q@) == Some((px@, nm@)),
            None => split(q@) is None,
        },
{
    let k: usize = find_char(q, ':', 0);
    if 0 < k && k < q.len() && q.len() - k > 1 {
        Some((sub_chars(q, 0, k), sub_chars(q, k + 1, q.len())))
    } else {
        None
    }
}

fn push_chars(v: &mut Vec<char>, s: &[char])
    ensures
        final(v)@ == old(v)@ + s@,
{
    v.extend_from_slice(s);
    assert(v@ =~= old(v)@ + s@);
}

fn entity_char(name: &[char]) -> (r: Option<char>)
    ensures
        r == entity(name@),
{
    if chars_are(name, "lt") {
        Some('<')
    } else if chars_are(name, "gt") {
        Some('>')
    } else if chars_are(name, "amp") {
        Some('&')
    } else if chars_are(name, "quot") {
        Some('"')
    } else if chars_are(name, "apos") {
        Some('\'')
    } else {
        None
    }
}

proof fn lemma_find_shift(s: Seq<char>, c: char, k: int, i: int)
    requires
        0 <= k <= i <= s.len(),
    ensures
        find(s.subrange(k, s.len() as int), c, i - k) == find(s, c, i) - k,
    decreases s.len() - i,
{
    if i < s.len() && s[i] != c {
        lemma_find_shift(s, c, k, i + 1);
    }
}

/// Resolves the basic XML entities.
fn decode_entities(s: &[char]) -> (r: String)
    ensures
        r@ == entities(s@),
{
    let mut out: Vec<char> = Vec::new();
    let mut pos: usize = 0;
    assert(s@.subrange(0, s@.len() as int) =~= s@);
    assert(out@ + entities(s@) =~= entities(s@));
    while pos < s.len()
        invariant
            pos <= s@.len(),
            out@ + entities(s@.subrange(pos as int, s@.len() as int)) == entities(s@),
        decreases s@.len() - pos,
    {
        let ghost rest = s@.subrange(pos as int, s@.len() as int);
        let ghost done = out@;
        let amp: usize = find_char(s, '&', pos);
        proof {
            lemma_find_shift(s@, '&', pos as int, pos as int);
        }
        if amp >= s.len() {
            push_chars(&mut out, sub_chars(s, pos, s.len()));
            let r = string_of(out.as_slice());
            assert(entities(rest) == rest);
            return r;
        }
        let semi: usize = find_char(s, ';', amp);
        proof {
            lemma_find_shift(s@, ';', pos as int, amp as int);
            lemma_find(s@, ';', amp as int);
            lemma_find(s@, '&', pos as int);
        }
        if semi >= s.len() {
            push_chars(&mut out, sub_chars(s, pos, amp + 1));
            assert(rest.subrange(0, amp - pos + 1) =~= s@.subrange(pos as int, amp + 1));
            assert(rest.subrange(amp - pos + 1, rest.len() as int) =~= s@.subrange(
                amp + 1,
                s@.len() as int,
            ));
            assert(out@ + entities(s@.subrange(amp + 1, s@.len() as int)) =~= done + entities(
                rest,
            ));
            pos = amp + 1;
        } else {
            assert(rest.subrange(amp - pos + 1, semi - pos) =~= s@.subrange(
                amp + 1,
                semi as int,
            ));
            assert(rest.subrange(semi - pos + 1, rest.len() as int) =~= s@.subrange(
                semi + 1,
                s@.len() as int,
            ));
            match entity_char(sub_chars(s, amp + 1, semi)) {
                Some(c) => {
                    push_chars(&mut out, sub_chars(s, pos, amp));
                    out.push(c);
                    assert(rest.subrange(0, amp - pos) =~= s@.subrange(pos as int, amp as int));
                },
                None => {
                    push_chars(&mut out, sub_chars(s, pos, semi + 1));
                    assert(rest.subrange(0, semi - pos + 1) =~= s@.subrange(
                        pos as int,
                        semi + 1,
                    ));
                },
            }
            assert(out@ + entities(s@.subrange(semi + 1, s@.len() as int)) =~= done + entities(
                rest,
            ));
            pos = semi + 1;
        }
    }
    assert(entities(s@.subrange(pos as int, s@.len() as int)) =~= Seq::empty());
    assert(out@ =~= entities(s@));
    string_of(out.as_slice())
}

fn push_prop(
    out: &mut Vec<XmpProperty>,
    limits: &Limits,
    prefix: &[char],
    name: &[char],
    value: &[char],
)
    ensures
        xmp_views(final(out)@) == with_prop(
            xmp_views(old(out)@),
            *limits,
            prefix@,
            name@,
            value@,
        ),
{
    if out.len() >= limits.max_tags {
        return ;
    }
    out.push(
        XmpProperty {
            prefix: string_of(prefix),
            name: string_of(name),
            value: decode_entities(value),
        },
    );
}

/// Adds the attributes of all elements.
fn scan_attributes(b: &[char], out: &mut Vec<XmpProperty>, limits: &Limits)
    ensures
        xmp_views(final(out)@) == attributes(b@, 0, xmp_views(old(out)@), *limits),
{
    let ghost result = attributes(b@, 0, xmp_views(out@), *limits);
    let mut i: usize = 0;
    while i < b.len() && b.len() - i > 1
        invariant_except_break
            i <= b@.len(),
            attributes(b@, i as int, xmp_views(out@), *limits) == result,
        ensures
            xmp_views(out@) == result,
        decreases b@.len() - i,
    {
        if b[i] == '=' && (b[i + 1] == '"' || b[i + 1] == '\'') {
            let quote = b[i + 1];
            let mut ne: usize = i;
            while ne > 0 && is_ascii_white(b[ne - 1])
                invariant
                    ne <= i < b@.len(),
                    back_white(b@, ne as int) == back_white(b@, i as int),
                decreases ne,
            {
                ne -= 1;
            }
            let mut ns: usize = ne;
            while ns > 0 && is_name_char(b[ns - 1])
                invariant
                    ns <= ne <= i < b@.len(),
                    back_name(b@, ns as int) == back_name(b@, ne as int),
                decreases ns,
            {
                ns -= 1;
            }
            let vs: usize = i + 2;
            let ve: usize = find_char(b, quote, vs);
            if ve >= b.len() {
                break;
            }
            match split_prefix(sub_chars(b, ns, ne)) {
                Some((px, nm)) => {
                    if !is_structural_prefix(px) {
                        push_prop(out, limits, px, nm, sub_chars(b, vs, ve));
                    }
                },
                None => {},
            }
            i = ve + 1;
        } else {
            i += 1;
        }
    }
}

#[derive(Clone, Copy)]
struct Frame<'a> {
    prefix: &'a [char],
    name: &'a [char],
    is_alt: bool,
    alt_taken: bool,
}

impl<'a> View for Frame<'a> {
    type V = FrameView;

    closed spec fn view(&self) -> FrameView {
        FrameView {
            prefix: self.prefix@,
            name: self.name@,
            is_alt: self.is_alt,
            alt_taken: self.alt_taken,
        }
    }
}

spec fn frames(s: Seq<Frame>) -> Seq<FrameView> {
    Seq::new(s.len(), |i: int| s[i]@)
}

/// The name that starts at `start`, and where it ends.
fn parse_qname<'a>(b: &'a [char], start: usize) -> (r: (&'a [char], &'a [char], usize))
    requires
        start <= b@.len(),
    ensures
        (r.0@, r.1@) == qname(b@, start as int),
        r.2 == name_end(b@, start as int),
        start <= r.2 <= b@.len(),
{
    let mut e: usize = start;
    while e < b.len() && is_name_char(b[e])
        invariant
            start <= e <= b@.len(),
            name_end(b@, e as int) == name_end(b@, start as int),
        decreases b@.len() - e,
    {
        e += 1;
    }
    let q = sub_chars(b, start, e);
    match split_prefix(q) {
        Some((px, nm)) => (px, nm, e),
        None => {
            let empty = sub_chars(b, start, start);
            assert(empty@ =~= Seq::<char>::empty());
            (empty, q, e)
        },
    }
}

fn same_chars(a: &[char], b: &[char]) -> (r: bool)
    ensures
        r == (a@ == b@),
{
    if a.len() != b.len() {
        return false;
    }
    let mut i: usize = 0;
    while i < a.len()
        invariant
            a@.len() == b@.len(),
            i <= a@.len(),
            forall|j: int| 0 <= j < i ==> a@[j] == b@[j],
        decreases a@.len() - i,
    {
        if a[i] != b[i] {
            return false;
        }
        i += 1;
    }
    assert(a@ =~= b@);
    true
}

/// Adds what an element with plain text stands for.
fn record_leaf<'a>(
    px: &'a [char],
    nm: &'a [char],
    content: &[char],
    stack: &mut Vec<Frame<'a>>,
    out: &mut Vec<XmpProperty>,
    limits: &Limits,
)
    ensures
        (Scan { stack: frames(final(stack)@), out: xmp_views(final(out)@) }) == leaf(
            px@,
            nm@,
            content@,
            Scan { stack: frames(old(stack)@), out: xmp_views(old(out)@) },
            *limits,
        ),
{
    let val = trimmed(content);
    let ghost entry = frames(stack@);
    if chars_are(px, "rdf") && chars_are(nm, "li") {
        if stack.len() > 0 {
            let top = stack[stack.len() - 1];
            assert(entry.last() == top@);
            if top.is_alt {
                if top.alt_taken {
                    return ;
                }
                let last: usize = stack.len() - 1;
                stack.set(last, Frame { alt_taken: true, ..top });
                assert(frames(stack@) =~= entry.drop_last().push(
                    FrameView { alt_taken: true, ..entry.last() },
                ));
            }
        }
        let ghost now = frames(stack@);
        let mut k: usize = stack.len();
        assert(now.subrange(0, k as int) =~= now);
        while k > 0
            invariant
                k <= stack@.len(),
                now == frames(stack@),
                xmp_views(out@) == xmp_views(old(out)@),
                val@ == trim(content@),
                owner(now.subrange(0, k as int)) == owner(now),
                leaf(
                    px@,
                    nm@,
                    content@,
                    Scan { stack: entry, out: xmp_views(old(out)@) },
                    *limits,
                ) == (match owner(now) {
                    Some(f) => Scan {
                        stack: now,
                        out: with_prop(xmp_views(old(out)@), *limits, f.prefix, f.name, val@),
                    },
                    None => Scan { stack: now, out: xmp_views(old(out)@) },
                }),
                entry == frames(old(stack)@),
            decreases k,
        {
            let f = stack[k - 1];
            assert(now.subrange(0, k as int).last() == f@);
            if !chars_are(f.prefix, "rdf") {
                push_prop(out, limits, f.prefix, f.name, val);
                return ;
            }
            assert(now.subrange(0, k as int).drop_last() =~= now.subrange(0, k - 1));
            k -= 1;
        }
    } else if !chars_are(px, "rdf") && !chars_are(px, "x") {
        push_prop(out, limits, px, nm, val);
    }
}

/// Adds the elements that hold plain text.
fn scan_elements(b: &[char], out: &mut Vec<XmpProperty>, limits: &Limits)
    ensures
        xmp_views(final(out)@) == elements(
            b@,
            0,
            Scan { stack: seq![], out: xmp_views(old(out)@) },
            *limits,
        ),
{
    let mut stack: Vec<Frame> = Vec::new();
    assert(frames(stack@) =~= seq![]);
    let ghost result = elements(
        b@,
        0,
        Scan { stack: seq![], out: xmp_views(out@) },
        *limits,
    );
    let mut i: usize = 0;
    while i < b.len() && b.len() - i > 1
        invariant_except_break
            i <= b@.len(),
            elements(
                b@,
                i as int,
                Scan { stack: frames(stack@), out: xmp_views(out@) },
                *limits,
            ) == result,
        ensures
            xmp_views(out@) == result,
        decreases b@.len() - i,
    {
        let ghost open = frames(stack@);
        if b[i] != '<' {
            i += 1;
        } else if b[i + 1] == '!' || b[i + 1] == '?' {
            i = find_char(b, '>', i + 1);
        } else if b[i + 1] == '/' {
            let (px, nm, end) = parse_qname(b, i + 2);
            if stack.len() > 0 {
                let top = stack[stack.len() - 1];
                assert(open.last() == top@);
                if same_chars(top.prefix, px) && same_chars(top.name, nm) {
                    stack.pop();
                    assert(frames(stack@) =~= open.drop_last());
                }
            }
            i = find_char(b, '>', end);
        } else {
            let (px, nm, after_name) = parse_qname(b, i + 1);
            let gt: usize = find_char(b, '>', after_name);
            if gt >= b.len() {
                break;
            }
            let content_start: usize = gt + 1;
            if b[gt - 1] == '/' || px.len() == 0 {
                i = content_start;
            } else {
                let j: usize = find_char(b, '<', content_start);
                let content = sub_chars(b, content_start, j);
                if j < b.len() && trimmed(content).len() > 0 {
                    record_leaf(px, nm, content, &mut stack, out, limits);
                    i = j;
                } else {
                    let is_alt = chars_are(px, "rdf") && chars_are(nm, "Alt");
                    if stack.len() < limits.max_depth as usize {
                        let f = Frame { prefix: px, name: nm, is_alt, alt_taken: false };
                        stack.push(f);
                        assert(frames(stack@) =~= open.push(f@));
                    }
                    i = content_start;
                }
            }
        }
    }
}

} // verus!
