//! A single `type/subtype[;q=weight]` entry: parsing, ordering and
//! formatting. Media-type syntax itself is delegated to the collaborating
//! MIME parser, reached through one trusted wrapper.

use vstd::prelude::*;
use crate::error::Error;
use crate::text::{
    chars_of, find_char, push_char, push_chars, split_at_char, split_chars, string_of, subvec,
    trim, trim_chars,
};
use crate::weight::{
    parse_qvalue, q_canonical, q_grammar_ok, q_mag, q_out_of_range, q_rep_ok, render_weight,
    render_weight_chars, WeightOutcome,
};
use crate::{MediaType, Mime};

verus! {

/// What the collaborating MIME parser makes of a character sequence: the
/// lowercased `type/subtype` essence of a valid media type, or nothing.
pub uninterp spec fn mime_essence(s: Seq<char>) -> Option<Seq<char>>;

/// A character allowed in an essence: an HTTP token character or the
/// separating slash.
pub open spec fn is_essence_char(c: char) -> bool {
    ||| ('a' as int <= c as int && c as int <= 'z' as int)
    ||| ('A' as int <= c as int && c as int <= 'Z' as int)
    ||| ('0' as int <= c as int && c as int <= '9' as int)
    ||| c == '!' || c == '#' || c == '$' || c == '%' || c == '&' || c == '\'' || c == '*'
    ||| c == '+' || c == '-' || c == '.' || c == '^' || c == '_' || c == '`' || c == '|'
    ||| c == '~' || c == '/'
}

/// A well-formed essence: what the MIME parser hands out. It has a type
/// part, holds only token characters and slashes, and parses back to
/// itself.
pub open spec fn essence_wf(e: Seq<char>) -> bool {
    &&& mime_essence(e) == Some(e)
    &&& e.len() >= 2
    &&& forall|j: int| 0 <= j < e.len() ==> is_essence_char(#[trigger] e[j])
}

/// The essence names the wildcard type: its type part is exactly `*`.
/// The slash cannot occur inside a type token, so this is the same as the
/// MIME parser finding `*` as the type component.
pub open spec fn wildcard_essence(e: Seq<char>) -> bool {
    e.len() >= 2 && e[0] == '*' && e[1] == '/'
}

/// Relies on `mime`'s `FromStr` parser together with `Mime::essence_str`:
/// whether a string parses, and the essence of the parsed value, depend on
/// the characters alone. A parsed value's essence is its `type/subtype`
/// text lowercased, so it is at least two characters, is made of HTTP
/// token characters and the separating slash, and parses back to itself
/// unchanged.
#[verifier::external_body]
fn mime_from_chars(v: &Vec<char>) -> (r: Option<Mime>)
    ensures
        r is Some <==> mime_essence(v@) is Some,
        r matches Some(m) ==> mime_essence(v@) == Some(m.essence@) && essence_wf(m.essence@),
{
    let s: String = v.iter().collect();
    match s.parse::<mime::Mime>() {
        Ok(m) => Some(
            Mime { essence: m.essence_str().to_string() },
        ),
        Err(_) => None,
    }
}

impl Mime {
    /// The value is one the MIME parser produced.
    pub open spec fn wf(&self) -> bool {
        essence_wf(self.essence@)
    }

    /// Whether the type component is the wildcard `*`.
    pub fn is_wildcard(&self) -> (b: bool)
        ensures
            b == wildcard_essence(self.essence@),
    {
        let s = self.essence.as_str();
        let n = s.unicode_len();
        n >= 2 && s.get_char(0) == '*' && s.get_char(1) == '/'
    }

    /// The `type/subtype` text.
    pub fn to_string(&self) -> (r: String)
        ensures
            r@ == self.essence@,
    {
        let mut out = String::new();
        out.append(self.essence.as_str());
        out
    }

    /// The type component: the text before the first `/`.
    pub fn type_(&self) -> (r: String)
        ensures
            r@ == mime_type_of(self.essence@),
    {
        let s = self.essence.as_str();
        let n = s.unicode_len();
        let mut i: usize = 0;
        while i < n && s.get_char(i) != '/'
            invariant
                i <= n == s@.len(),
                forall|j: int| 0 <= j < i ==> s@[j] != '/',
            decreases n - i,
        {
            i = i + 1;
        }
        proof {
            if i < n {
                crate::text::lemma_find_char_at(s@, '/', i as int);
            } else {
                crate::text::lemma_find_char_none(s@, '/');
                assert(s@.subrange(0, n as int) =~= s@);
            }
        }
        String::from_str(s.substring_char(0, i))
    }

    /// The subtype component: the text after the first `/`, empty when
    /// there is none.
    pub fn subtype(&self) -> (r: String)
        ensures
            r@ == mime_subtype_of(self.essence@),
    {
        let s = self.essence.as_str();
        let n = s.unicode_len();
        let mut i: usize = 0;
        while i < n && s.get_char(i) != '/'
            invariant
                i <= n == s@.len(),
                forall|j: int| 0 <= j < i ==> s@[j] != '/',
            decreases n - i,
        {
            i = i + 1;
        }
        if i < n {
            proof {
                crate::text::lemma_find_char_at(s@, '/', i as int);
            }
            String::from_str(s.substring_char(i + 1, n))
        } else {
            proof {
                crate::text::lemma_find_char_none(s@, '/');
            }
            String::new()
        }
    }
}

/// The text before the first `/` of an essence.
pub open spec fn mime_type_of(e: Seq<char>) -> Seq<char> {
    match find_char(e, '/') {
        Some(i) => e.subrange(0, i),
        None => e,
    }
}

/// The text after the first `/` of an essence, empty when there is none.
pub open spec fn mime_subtype_of(e: Seq<char>) -> Seq<char> {
    match find_char(e, '/') {
        Some(i) => e.subrange(i + 1, e.len() as int),
        None => Seq::empty(),
    }
}

/// The trimmed text before the first `;` of a segment: the media-type
/// text handed to the MIME parser.
pub open spec fn seg_mime_text(s: Seq<char>) -> Seq<char> {
    trim(split_at_char(s, ';')[0])
}

/// The segment names a weight: a second `;` part exists and, once
/// trimmed, starts with the literal `q=`. A second part without that
/// prefix is silently ignored.
pub open spec fn seg_has_q(s: Seq<char>) -> bool {
    let parts = split_at_char(s, ';');
    &&& parts.len() >= 2
    &&& trim(parts[1]).len() >= 2
    &&& trim(parts[1])[0] == 'q'
    &&& trim(parts[1])[1] == '='
}

/// The text after `q=` in the second part, with the prefix removed but
/// otherwise untrimmed, as error messages report it.
pub open spec fn seg_q_text(s: Seq<char>) -> Seq<char> {
    let p = trim(split_at_char(s, ';')[1]);
    p.subrange(2, p.len() as int)
}

/// What parsing one `;`-delimited header segment returns, for every
/// segment. Only the first two `;` parts are consulted.
pub open spec fn media_type_result(s: Seq<char>, r: Result<MediaType, Error>) -> bool {
    match mime_essence(seg_mime_text(s)) {
        None => r matches Err(e) && (e matches Error::MediaType { value } && value@
            == seg_mime_text(s)),
        Some(e0) => if !seg_has_q(s) {
            r matches Ok(mt) && mt.mime.essence@ == e0 && mt.weight is None
        } else {
            let q = seg_q_text(s);
            let qt = trim(q);
            if q_grammar_ok(qt) && q_out_of_range(qt) {
                r matches Err(e) && (e matches Error::WeightRange { value } && value@
                    == q_canonical(qt))
            } else if !(q_grammar_ok(qt) && q_rep_ok(qt)) {
                r matches Err(e) && (e matches Error::ParseWeight { value } && value@ == q)
            } else {
                r matches Ok(mt) && mt.mime.essence@ == e0 && (mt.weight matches Some(w) && w
                    == q_mag(qt))
            }
        },
    }
}

/// The weight section of the segment, if named, parses and lies in range.
pub open spec fn part_weight_ok(p: Seq<char>) -> bool {
    seg_has_q(p) ==> {
        let qt = trim(seg_q_text(p));
        q_grammar_ok(qt) && q_rep_ok(qt) && !q_out_of_range(qt)
    }
}

/// The whole segment parses.
pub open spec fn part_ok(p: Seq<char>) -> bool {
    mime_essence(seg_mime_text(p)) is Some && part_weight_ok(p)
}

/// The essence the segment parses to.
pub open spec fn part_essence(p: Seq<char>) -> Seq<char> {
    mime_essence(seg_mime_text(p)).unwrap()
}

/// The weight the segment parses to, in thousandths.
pub open spec fn part_weight(p: Seq<char>) -> Option<int> {
    if seg_has_q(p) {
        Some(q_mag(trim(seg_q_text(p))))
    } else {
        None
    }
}

/// `media_type_result` pins the parts model: a segment parses exactly
/// when `part_ok` holds, to the entry `part_essence` and `part_weight`
/// give.
pub proof fn lemma_media_type_parts(p: Seq<char>, r: Result<MediaType, Error>)
    requires
        media_type_result(p, r),
    ensures
        r is Ok <==> part_ok(p),
        r matches Ok(mt) ==> mt.mime.essence@ == part_essence(p) && (match part_weight(p) {
            Some(q) => mt.weight matches Some(w) && w == q,
            None => mt.weight is None,
        }),
{
}

/// How a rendered entry reads: the essence, then `;q=` and the weight
/// when one is present.
pub open spec fn render_media_type(essence: Seq<char>, weight: Option<u32>) -> Seq<char> {
    match weight {
        None => essence,
        Some(w) => essence + seq![';', 'q', '='] + render_weight(w as int),
    }
}

impl MediaType {
    /// The entry is one parsing produced: a parser-made mime value and a
    /// weight within range.
    pub open spec fn wf(&self) -> bool {
        &&& self.mime.wf()
        &&& match self.weight {
            Some(w) => w <= 1000,
            None => true,
        }
    }

    /// The priority key: the weight, read as the full weight when absent.
    pub open spec fn key(&self) -> int {
        match self.weight {
            Some(w) => w as int,
            None => 1000,
        }
    }

    /// Parses one `;`-delimited segment of an `Accept` header value, as
    /// `media_type_result` describes: the part before the first `;` is
    /// the media type; a second part starting with `q=` is the weight.
    pub fn from_str(s: &str) -> (r: Result<MediaType, Error>)
        ensures
            media_type_result(s@, r),
            r matches Ok(mt) ==> mt.wf(),
    {
        let v = chars_of(s);
        Self::from_chars(&v)
    }

    /// `from_str`, over the characters of the segment.
    pub fn from_chars(v: &Vec<char>) -> (r: Result<MediaType, Error>)
        ensures
            media_type_result(v@, r),
            r matches Ok(mt) ==> mt.wf(),
    {
        let parts = split_chars(v, ';');
        proof {
            crate::text::lemma_split_at_char(v@, ';');
            assert(parts@[0]@ == split_at_char(v@, ';')[0]);
        }
        let p0 = trim_chars(&parts[0]);
        let m = mime_from_chars(&p0);
        let mime = match m {
            None => {
                return Err(Error::MediaType { value: string_of(&p0) });
            }
            Some(mime) => mime,
        };
        if parts.len() < 2 {
            return Ok(MediaType { mime, weight: None });
        }
        proof {
            assert(parts@[1]@ == split_at_char(v@, ';')[1]);
        }
        let p1 = trim_chars(&parts[1]);
        if !(p1.len() >= 2 && p1[0] == 'q' && p1[1] == '=') {
            return Ok(MediaType { mime, weight: None });
        }
        let q = subvec(&p1, 2, p1.len());
        let qt = trim_chars(&q);
        match parse_qvalue(&qt) {
            WeightOutcome::Value(w) => Ok(MediaType { mime, weight: Some(w) }),
            WeightOutcome::NotNumeric => Err(Error::ParseWeight { value: string_of(&q) }),
            WeightOutcome::OutOfRange(cv) => Err(Error::WeightRange { value: string_of(&cv) }),
        }
    }

    /// Renders the entry, as `render_media_type` describes.
    pub fn to_string(&self) -> (r: String)
        requires
            match self.weight {
                Some(w) => w <= 1000,
                None => true,
            },
        ensures
            r@ == render_media_type(self.mime.essence@, self.weight),
    {
        let mut out = String::new();
        out.append(self.mime.essence.as_str());
        match self.weight {
            None => {}
            Some(w) => {
                push_char(&mut out, ';');
                push_char(&mut out, 'q');
                push_char(&mut out, '=');
                let rc = render_weight_chars(w);
                push_chars(&mut out, &rc);
                proof {
                    assert(out@ =~= render_media_type(self.mime.essence@, self.weight));
                }
            }
        }
        out
    }
}

/// A segment without a `;` section parses, when its media type does, to
/// an entry with no weight: absence of a `q=` section means an absent
/// weight.
pub proof fn lemma_segment_without_weight(s: Seq<char>)
    requires
        forall|j: int| 0 <= j < s.len() ==> s[j] != ';',
    ensures
        seg_mime_text(s) == trim(s),
        !seg_has_q(s),
        mime_essence(trim(s)) is Some ==> part_ok(s) && part_weight(s) is None && part_essence(s)
            == mime_essence(trim(s)).unwrap(),
{
    crate::text::lemma_find_char_none(s, ';');
}

/// A `type/subtype;q=<numeral>` segment decomposes as expected, and
/// parses by the numeral's class: in range it yields the numeral's value
/// in thousandths; out of range it fails with the range error carrying
/// the canonical rendering; not a numeral, it fails with the weight parse
/// error carrying the text after `q=`.
pub proof fn lemma_weight_segment(m: Seq<char>, w: Seq<char>)
    requires
        forall|j: int| 0 <= j < m.len() ==> m[j] != ';',
        forall|j: int| 0 <= j < w.len() ==> (w[j] != ';' && !crate::text::is_space(#[trigger] w[j])),
    ensures
        ({
            let s = m + seq![';', 'q', '='] + w;
            &&& seg_mime_text(s) == trim(m)
            &&& seg_has_q(s)
            &&& seg_q_text(s) == w
            &&& trim(seg_q_text(s)) == w
            &&& (part_ok(s) <==> mime_essence(trim(m)) is Some && q_grammar_ok(w) && q_rep_ok(w)
                && !q_out_of_range(w))
            &&& (part_ok(s) ==> part_weight(s) == Some(q_mag(w)) && part_essence(s) == mime_essence(
                trim(m),
            ).unwrap())
            &&& (mime_essence(trim(m)) is Some && q_grammar_ok(w) && q_out_of_range(w)
                ==> forall|r: Result<MediaType, Error>|
                media_type_result(s, r) ==> (r matches Err(e) && (e matches Error::WeightRange {
                    value,
                } && value@ == q_canonical(w))))
            &&& (mime_essence(trim(m)) is Some && !(q_grammar_ok(w) && (q_out_of_range(w)
                || q_rep_ok(w))) ==> forall|r: Result<MediaType, Error>|
                media_type_result(s, r) ==> (r matches Err(e) && (e matches Error::ParseWeight {
                    value,
                } && value@ == w)))
        }),
{
    let s = m + seq![';', 'q', '='] + w;
    let qpart = seq!['q', '='] + w;
    assert(s =~= m + seq![';'] + qpart);
    crate::text::lemma_split_prepend(m, qpart, ';');
    crate::text::lemma_find_char_none(qpart, ';');
    let parts = split_at_char(s, ';');
    assert(parts =~= seq![m, qpart]);
    crate::text::lemma_trim_id(qpart);
    assert(qpart.subrange(2, qpart.len() as int) =~= w);
    crate::text::lemma_trim_id(w);
}

/// The comparison of two entries: by weight alone, an explicit weight
/// counting as greater than an absent one.
pub open spec fn weight_order(a: Option<u32>, b: Option<u32>) -> core::cmp::Ordering {
    match (a, b) {
        (Some(x), Some(y)) => if x < y {
            core::cmp::Ordering::Less
        } else if x == y {
            core::cmp::Ordering::Equal
        } else {
            core::cmp::Ordering::Greater
        },
        (Some(x), None) => core::cmp::Ordering::Greater,
        (None, Some(y)) => core::cmp::Ordering::Less,
        (None, None) => core::cmp::Ordering::Equal,
    }
}

impl PartialEq for MediaType {
    fn eq(&self, other: &Self) -> (r: bool) {
        let weights_eq = match (self.weight, other.weight) {
            (Some(a), Some(b)) => a == b,
            (None, None) => true,
            _ => false,
        };
        weights_eq && self.mime == other.mime
    }
}

impl vstd::std_specs::cmp::PartialEqSpecImpl for MediaType {
    open spec fn obeys_eq_spec() -> bool {
        true
    }

    open spec fn eq_spec(&self, other: &Self) -> bool {
        self.mime.essence@ == other.mime.essence@ && self.weight == other.weight
    }
}

impl PartialOrd for MediaType {
    fn partial_cmp(&self, other: &Self) -> (r: Option<core::cmp::Ordering>) {
        match (self.weight, other.weight) {
            (Some(x), Some(y)) => if x < y {
                Some(core::cmp::Ordering::Less)
            } else if x == y {
                Some(core::cmp::Ordering::Equal)
            } else {
                Some(core::cmp::Ordering::Greater)
            },
            (Some(_), None) => Some(core::cmp::Ordering::Greater),
            (None, Some(_)) => Some(core::cmp::Ordering::Less),
            (None, None) => Some(core::cmp::Ordering::Equal),
        }
    }
}

impl vstd::std_specs::cmp::PartialOrdSpecImpl for MediaType {
    open spec fn obeys_partial_cmp_spec() -> bool {
        true
    }

    open spec fn partial_cmp_spec(&self, other: &Self) -> Option<core::cmp::Ordering> {
        Some(weight_order(self.weight, other.weight))
    }
}

impl PartialEq<Mime> for MediaType {
    /// Equality with a bare mime value ignores the weight.
    fn eq(&self, other: &Mime) -> (r: bool) {
        self.mime.essence == other.essence
    }
}

impl vstd::std_specs::cmp::PartialEqSpecImpl<Mime> for MediaType {
    open spec fn obeys_eq_spec() -> bool {
        true
    }

    open spec fn eq_spec(&self, other: &Mime) -> bool {
        self.mime.essence@ == other.essence@
    }
}

impl From<Mime> for MediaType {
    /// A bare mime value as an entry: no weight.
    fn from(mime: Mime) -> (r: MediaType) {
        MediaType { mime, weight: None }
    }
}

impl vstd::std_specs::convert::FromSpecImpl<Mime> for MediaType {
    open spec fn obeys_from_spec() -> bool {
        true
    }

    open spec fn from_spec(mime: Mime) -> MediaType {
        MediaType { mime, weight: None }
    }
}

impl From<MediaType> for Mime {
    /// The mime value of an entry, its weight dropped.
    fn from(media_type: MediaType) -> (r: Mime) {
        media_type.mime
    }
}

impl vstd::std_specs::convert::FromSpecImpl<MediaType> for Mime {
    open spec fn obeys_from_spec() -> bool {
        true
    }

    open spec fn from_spec(media_type: MediaType) -> Mime {
        media_type.mime
    }
}

impl PartialEq for Mime {
    fn eq(&self, other: &Self) -> (r: bool) {
        self.essence == other.essence
    }
}

impl vstd::std_specs::cmp::PartialEqSpecImpl for Mime {
    open spec fn obeys_eq_spec() -> bool {
        true
    }

    open spec fn eq_spec(&self, other: &Self) -> bool {
        self.essence@ == other.essence@
    }
}

} // verus!
