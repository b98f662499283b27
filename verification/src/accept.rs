//! The `Accept` header value: parsing with the wildcard-weight cascade,
//! negotiation, and formatting.

use vstd::prelude::*;
use crate::error::Error;
use crate::media_type::{
    media_type_result, part_essence, part_ok, part_weight, render_media_type, wildcard_essence,
};
use crate::text::{chars_of, push_char, split_at_char, split_chars, trim};
use crate::weight::render_weight;
use crate::{Accept, MediaType, Mime};

verus! {

/// The model of one parsed entry: its essence and its weight in
/// thousandths.
pub open spec fn abs_mt(mt: MediaType) -> (Seq<char>, Option<int>) {
    (
        mt.mime.essence@,
        match mt.weight {
            Some(w) => Some(w as int),
            None => None,
        },
    )
}

/// The models of a list of entries.
pub open spec fn abs_mts(ts: Seq<MediaType>) -> Seq<(Seq<char>, Option<int>)> {
    ts.map_values(|mt: MediaType| abs_mt(mt))
}

/// The model of an optional entry.
pub open spec fn abs_opt_mt(o: Option<MediaType>) -> Option<(Seq<char>, Option<int>)> {
    match o {
        Some(mt) => Some(abs_mt(mt)),
        None => None,
    }
}

/// The model of the entry a segment parses to.
pub open spec fn entry_of(p: Seq<char>) -> (Seq<char>, Option<int>) {
    (part_essence(p), part_weight(p))
}

/// The segment parses to a wildcard entry.
pub open spec fn is_wild_part(p: Seq<char>) -> bool {
    wildcard_essence(part_essence(p))
}

/// Every segment parses.
pub open spec fn all_parts_ok(parts: Seq<Seq<char>>) -> bool {
    forall|j: int| 0 <= j < parts.len() ==> part_ok(#[trigger] parts[j])
}

/// The retained wildcard entry: of the wildcard segments, the last one.
pub open spec fn model_wildcard(parts: Seq<Seq<char>>) -> Option<(Seq<char>, Option<int>)>
    decreases parts.len(),
{
    if parts.len() == 0 {
        None
    } else if is_wild_part(parts.last()) {
        Some(entry_of(parts.last()))
    } else {
        model_wildcard(parts.drop_last())
    }
}

/// The non-wildcard entries, in the order the segments have.
pub open spec fn model_types_raw(parts: Seq<Seq<char>>) -> Seq<(Seq<char>, Option<int>)>
    decreases parts.len(),
{
    if parts.len() == 0 {
        Seq::empty()
    } else if is_wild_part(parts.last()) {
        model_types_raw(parts.drop_last())
    } else {
        model_types_raw(parts.drop_last()).push(entry_of(parts.last()))
    }
}

/// The explicit weight of the retained wildcard, if both exist.
pub open spec fn model_wild_weight(parts: Seq<Seq<char>>) -> Option<int> {
    match model_wildcard(parts) {
        Some((e, Some(q))) => Some(q),
        _ => None,
    }
}

/// The wildcard-weight cascade: when the wildcard carries an explicit
/// weight, every entry without a weight of its own takes it.
pub open spec fn cascade(ts: Seq<(Seq<char>, Option<int>)>, wq: Option<int>) -> Seq<
    (Seq<char>, Option<int>),
> {
    match wq {
        None => ts,
        Some(q) => ts.map_values(
            |t: (Seq<char>, Option<int>)|
                if t.1 is None {
                    (t.0, Some(q))
                } else {
                    t
                },
        ),
    }
}

/// The priority key of an entry model: its weight, read as the full
/// weight when absent.
pub open spec fn ekey(t: (Seq<char>, Option<int>)) -> int {
    match t.1 {
        Some(w) => w,
        None => 1000,
    }
}

/// Inserts an entry behind every entry of at least its key: where a
/// stable descending sort places a later entry.
pub open spec fn insert_desc(x: (Seq<char>, Option<int>), l: Seq<(Seq<char>, Option<int>)>) -> Seq<
    (Seq<char>, Option<int>),
>
    decreases l.len(),
{
    if l.len() == 0 {
        seq![x]
    } else if ekey(l[0]) >= ekey(x) {
        seq![l[0]] + insert_desc(x, l.drop_first())
    } else {
        seq![x] + l
    }
}

/// The stable descending sort by `ekey`: ties keep their input order.
pub open spec fn sort_desc(l: Seq<(Seq<char>, Option<int>)>) -> Seq<(Seq<char>, Option<int>)>
    decreases l.len(),
{
    if l.len() == 0 {
        Seq::empty()
    } else {
        insert_desc(l.last(), sort_desc(l.drop_last()))
    }
}

/// The types list a header value parses to: scanned, cascaded, sorted.
pub open spec fn model_types(parts: Seq<Seq<char>>) -> Seq<(Seq<char>, Option<int>)> {
    sort_desc(cascade(model_types_raw(parts), model_wild_weight(parts)))
}

/// A list of entry models is in descending key order.
pub open spec fn sorted_desc(l: Seq<(Seq<char>, Option<int>)>) -> bool {
    forall|i: int, j: int| 0 <= i < j < l.len() ==> ekey(l[i]) >= ekey(l[j])
}

/// Inserting keeps a descending list descending, and adds only the new
/// entry.
proof fn lemma_insert_desc_sorted(x: (Seq<char>, Option<int>), l: Seq<(Seq<char>, Option<int>)>)
    requires
        sorted_desc(l),
    ensures
        sorted_desc(insert_desc(x, l)),
        insert_desc(x, l).len() == l.len() + 1,
        forall|i: int|
            0 <= i < insert_desc(x, l).len() ==> (#[trigger] insert_desc(x, l)[i] == x || exists|
                j: int,
            | 0 <= j < l.len() && l[j] == insert_desc(x, l)[i]),
    decreases l.len(),
{
    if l.len() == 0 {
    } else if ekey(l[0]) >= ekey(x) {
        let rest = l.drop_first();
        assert(sorted_desc(rest));
        lemma_insert_desc_sorted(x, rest);
        let r = insert_desc(x, l);
        let ri = insert_desc(x, rest);
        assert forall|i: int|
            0 <= i < r.len() implies (#[trigger] r[i] == x || exists|j: int|
                0 <= j < l.len() && l[j] == r[i]) by {
            if i == 0 {
                assert(l[0] == r[0]);
            } else {
                assert(r[i] == ri[i - 1]);
                if ri[i - 1] != x {
                    let j = choose|j: int| 0 <= j < rest.len() && rest[j] == ri[i - 1];
                    assert(l[j + 1] == r[i]);
                }
            }
        }
        assert forall|i: int, j: int| 0 <= i < j < r.len() implies ekey(r[i]) >= ekey(r[j]) by {
            if i == 0 {
                assert(r[j] == ri[j - 1]);
                if ri[j - 1] != x {
                    let k = choose|k: int| 0 <= k < rest.len() && rest[k] == ri[j - 1];
                    assert(l[k + 1] == ri[j - 1]);
                    assert(ekey(l[0]) >= ekey(l[k + 1]));
                }
            } else {
                assert(r[i] == ri[i - 1]);
                assert(r[j] == ri[j - 1]);
            }
        }
    }
}

/// Sorting yields a descending list of the same length, made of the
/// input's entries.
pub proof fn lemma_sort_desc_sorted(l: Seq<(Seq<char>, Option<int>)>)
    ensures
        sorted_desc(sort_desc(l)),
        sort_desc(l).len() == l.len(),
        forall|i: int|
            0 <= i < sort_desc(l).len() ==> exists|j: int|
                0 <= j < l.len() && l[j] == #[trigger] sort_desc(l)[i],
    decreases l.len(),
{
    if l.len() > 0 {
        let front = l.drop_last();
        lemma_sort_desc_sorted(front);
        lemma_insert_desc_sorted(l.last(), sort_desc(front));
        let s = sort_desc(l);
        assert forall|i: int|
            0 <= i < s.len() implies exists|j: int| 0 <= j < l.len() && l[j] == #[trigger] s[i] by {
            if s[i] == l.last() {
                assert(l[l.len() - 1] == s[i]);
            } else {
                let k = choose|k: int| 0 <= k < sort_desc(front).len() && sort_desc(front)[k]
                    == s[i];
                let j = choose|j: int| 0 <= j < front.len() && front[j] == sort_desc(front)[k];
                assert(l[j] == s[i]);
            }
        }
    }
}

/// The types list a parse yields is in descending priority order: its
/// order is the negotiation preference order.
pub proof fn lemma_model_types_sorted(parts: Seq<Seq<char>>)
    ensures
        sorted_desc(model_types(parts)),
{
    lemma_sort_desc_sorted(cascade(model_types_raw(parts), model_wild_weight(parts)));
}

/// The set of representations offered holds one with the given essence.
pub open spec fn avail_has(avail: Seq<Mime>, e: Seq<char>) -> bool {
    exists|i: int| 0 <= i < avail.len() && avail[i].essence@ == e
}

/// The index of the first entry whose media type is among the available
/// representations.
pub open spec fn first_match(ts: Seq<MediaType>, avail: Seq<Mime>) -> Option<int>
    decreases ts.len(),
{
    if ts.len() == 0 {
        None
    } else if avail_has(avail, ts[0].mime.essence@) {
        Some(0int)
    } else {
        match first_match(ts.drop_first(), avail) {
            Some(i) => Some(i + 1),
            None => None,
        }
    }
}

/// What `first_match` returns: the first index whose media type is
/// available.
pub proof fn lemma_first_match(ts: Seq<MediaType>, avail: Seq<Mime>)
    ensures
        match first_match(ts, avail) {
            Some(i) => 0 <= i < ts.len() && avail_has(avail, ts[i].mime.essence@) && (forall|
                j: int,
            | 0 <= j < i ==> !avail_has(avail, ts[j].mime.essence@)),
            None => forall|j: int| 0 <= j < ts.len() ==> !avail_has(avail, ts[j].mime.essence@),
        },
    decreases ts.len(),
{
    if ts.len() > 0 && !avail_has(avail, ts[0].mime.essence@) {
        let rest = ts.drop_first();
        lemma_first_match(rest, avail);
        match first_match(rest, avail) {
            Some(i) => {
                assert forall|j: int| 0 <= j < i + 1 implies !avail_has(
                    avail,
                    ts[j].mime.essence@,
                ) by {
                    if j > 0 {
                        assert(rest[j - 1] == ts[j]);
                    }
                }
            }
            None => {
                assert forall|j: int| 0 <= j < ts.len() implies !avail_has(
                    avail,
                    ts[j].mime.essence@,
                ) by {
                    if j > 0 {
                        assert(rest[j - 1] == ts[j]);
                    }
                }
            }
        }
    }
}

/// A first matching index determines `first_match`.
proof fn lemma_first_match_at(ts: Seq<MediaType>, avail: Seq<Mime>, k: int)
    requires
        0 <= k < ts.len(),
        avail_has(avail, ts[k].mime.essence@),
        forall|j: int| 0 <= j < k ==> !avail_has(avail, ts[j].mime.essence@),
    ensures
        first_match(ts, avail) == Some(k),
    decreases ts.len(),
{
    if k > 0 {
        let rest = ts.drop_first();
        assert(forall|j: int| 0 <= j < k - 1 ==> rest[j] == ts[j + 1]);
        lemma_first_match_at(rest, avail, k - 1);
    }
}

/// No matching entry determines `first_match`.
proof fn lemma_first_match_none(ts: Seq<MediaType>, avail: Seq<Mime>)
    requires
        forall|j: int| 0 <= j < ts.len() ==> !avail_has(avail, ts[j].mime.essence@),
    ensures
        first_match(ts, avail) == None::<int>,
    decreases ts.len(),
{
    if ts.len() > 0 {
        let rest = ts.drop_first();
        assert(forall|j: int| 0 <= j < rest.len() ==> rest[j] == ts[j + 1]);
        lemma_first_match_none(rest, avail);
    }
}

/// One rendered entry.
pub open spec fn render_entry(mt: MediaType) -> Seq<char> {
    render_media_type(mt.mime.essence@, mt.weight)
}

/// The entries joined by `", "`.
pub open spec fn join_entries(ts: Seq<MediaType>) -> Seq<char>
    decreases ts.len(),
{
    if ts.len() == 0 {
        Seq::empty()
    } else if ts.len() == 1 {
        render_entry(ts[0])
    } else {
        render_entry(ts[0]) + seq![',', ' '] + join_entries(ts.drop_first())
    }
}

/// Appending an entry to a join.
proof fn lemma_join_snoc(ts: Seq<MediaType>, x: MediaType)
    ensures
        join_entries(ts.push(x)) == if ts.len() == 0 {
            render_entry(x)
        } else {
            join_entries(ts) + seq![',', ' '] + join_entries(seq![x])
        },
    decreases ts.len(),
{
    let p = ts.push(x);
    if ts.len() == 0 {
        assert(p.len() == 1 && p[0] == x);
    } else {
        assert(p[0] == ts[0]);
        assert(p.drop_first() =~= ts.drop_first().push(x));
        lemma_join_snoc(ts.drop_first(), x);
        if ts.len() == 1 {
            assert(join_entries(ts) == render_entry(ts[0]));
            assert(join_entries(p) =~= join_entries(ts) + seq![',', ' '] + join_entries(seq![x]));
        } else {
            assert(join_entries(p) =~= join_entries(ts) + seq![',', ' '] + join_entries(seq![x]));
        }
    }
}

/// The full rendering: the entries in stored order, then the wildcard.
pub open spec fn render_accept(a: Accept) -> Seq<char> {
    join_entries(a.types@) + match a.wildcard {
        None => Seq::<char>::empty(),
        Some(w) => seq![',', ' '] + render_entry(w),
    }
}

impl Accept {
    /// The value is one parsing produced: parser-made entries, the
    /// wildcard slot holding only a wildcard type, the list holding none.
    pub open spec fn wf(&self) -> bool {
        &&& match self.wildcard {
            Some(w) => w.wf() && wildcard_essence(w.mime.essence@),
            None => true,
        }
        &&& forall|i: int|
            0 <= i < self.types@.len() ==> (#[trigger] self.types@[i]).wf() && !wildcard_essence(
                self.types@[i].mime.essence@,
            )
    }

    /// After the cascade, no entry lacks a weight while the wildcard has
    /// one.
    pub open spec fn cascade_stable(&self) -> bool {
        match self.wildcard {
            Some(w) => w.weight is Some ==> forall|i: int|
                0 <= i < self.types@.len() ==> (#[trigger] self.types@[i]).weight is Some,
            None => true,
        }
    }

    /// Every stored weight lies in range, so the value renders.
    pub open spec fn weights_ok(&self) -> bool {
        &&& match self.wildcard {
            Some(w) => match w.weight {
                Some(q) => q <= 1000,
                None => true,
            },
            None => true,
        }
        &&& forall|i: int|
            0 <= i < self.types@.len() ==> (match (#[trigger] self.types@[i]).weight {
                Some(q) => q <= 1000,
                None => true,
            })
    }
}

/// A subsequence of non-wildcard, well-formed entries.
pub open spec fn entries_wf(ts: Seq<MediaType>) -> bool {
    forall|i: int|
        0 <= i < ts.len() ==> (#[trigger] ts[i]).wf() && !wildcard_essence(ts[i].mime.essence@)
}

/// Applies the wildcard weight to every entry without one, as a new list.
fn cascade_media_types(ts: Vec<MediaType>, q: u32) -> (r: Vec<MediaType>)
    requires
        q <= 1000,
        entries_wf(ts@),
    ensures
        abs_mts(r@) == cascade(abs_mts(ts@), Some(q as int)),
        entries_wf(r@),
{
    let mut out: Vec<MediaType> = Vec::new();
    let mut i: usize = 0;
    while i < ts.len()
        invariant
            q <= 1000,
            entries_wf(ts@),
            i <= ts@.len(),
            out@.len() == i,
            entries_wf(out@),
            forall|j: int|
                0 <= j < i ==> abs_mt(#[trigger] out@[j]) == (if abs_mt(ts@[j]).1 is None {
                    (abs_mt(ts@[j]).0, Some(q as int))
                } else {
                    abs_mt(ts@[j])
                }),
        decreases ts@.len() - i,
    {
        let t = &ts[i];
        let mime = Mime { essence: t.mime.essence.clone() };
        let w = match t.weight {
            Some(x) => Some(x),
            None => Some(q),
        };
        out.push(MediaType { mime, weight: w });
        i = i + 1;
    }
    proof {
        assert(abs_mts(out@) =~= cascade(abs_mts(ts@), Some(q as int)));
    }
    out
}

/// A first position with a smaller key determines `insert_desc`.
proof fn lemma_insert_desc_at(x: (Seq<char>, Option<int>), l: Seq<(Seq<char>, Option<int>)>, pos: int)
    requires
        0 <= pos <= l.len(),
        forall|j: int| 0 <= j < pos ==> ekey(#[trigger] l[j]) >= ekey(x),
        pos < l.len() ==> ekey(l[pos]) < ekey(x),
    ensures
        insert_desc(x, l) == l.subrange(0, pos) + seq![x] + l.subrange(pos, l.len() as int),
    decreases l.len(),
{
    if pos == 0 {
        if l.len() == 0 {
            assert(insert_desc(x, l) =~= l.subrange(0, 0) + seq![x] + l.subrange(0, 0));
        } else {
            assert(insert_desc(x, l) =~= l.subrange(0, 0) + seq![x] + l.subrange(
                0,
                l.len() as int,
            ));
        }
    } else {
        let rest = l.drop_first();
        assert(forall|j: int| 0 <= j < pos - 1 ==> rest[j] == l[j + 1]);
        lemma_insert_desc_at(x, rest, pos - 1);
        assert(insert_desc(x, l) =~= l.subrange(0, pos) + seq![x] + l.subrange(
            pos,
            l.len() as int,
        ));
    }
}

/// Inserts an entry where the stable descending sort places it.
fn insert_media_type(r: &mut Vec<MediaType>, x: MediaType)
    requires
        x.wf(),
        !wildcard_essence(x.mime.essence@),
        entries_wf(old(r)@),
    ensures
        abs_mts(final(r)@) == insert_desc(abs_mt(x), abs_mts(old(r)@)),
        entries_wf(final(r)@),
{
    let xk: u32 = match x.weight {
        Some(w) => w,
        None => 1000,
    };
    let mut pos: usize = 0;
    let mut stop = false;
    while pos < r.len() && !stop
        invariant
            pos <= r@.len(),
            r@ == old(r)@,
            xk as int == ekey(abs_mt(x)),
            forall|j: int| 0 <= j < pos ==> ekey(abs_mt(#[trigger] r@[j])) >= xk as int,
            stop ==> pos < r@.len() && ekey(abs_mt(r@[pos as int])) < xk as int,
        decreases
                r@.len() - pos + (if stop {
                    0int
                } else {
                    1int
                }),
    {
        let pk: u32 = match r[pos].weight {
            Some(w) => w,
            None => 1000,
        };
        if pk < xk {
            stop = true;
        } else {
            pos = pos + 1;
        }
    }
    proof {
        assert(forall|j: int|
            0 <= j < pos ==> ekey(#[trigger] abs_mts(r@)[j]) >= ekey(abs_mt(x)));
        lemma_insert_desc_at(abs_mt(x), abs_mts(r@), pos as int);
    }
    let ghost pre = r@;
    r.insert(pos, x);
    proof {
        assert(abs_mts(r@) =~= abs_mts(pre).subrange(0, pos as int) + seq![abs_mt(x)] + abs_mts(
            pre,
        ).subrange(pos as int, pre.len() as int));
    }
}

/// Sorts entries by descending priority, stably, as `sort_desc`
/// describes.
fn sort_media_types(ts: Vec<MediaType>) -> (r: Vec<MediaType>)
    requires
        entries_wf(ts@),
    ensures
        abs_mts(r@) == sort_desc(abs_mts(ts@)),
        entries_wf(r@),
    decreases ts@.len(),
{
    let mut ts = ts;
    let ghost orig = ts@;
    match ts.pop() {
        None => {
            proof {
                assert(abs_mts(ts@) =~= sort_desc(abs_mts(orig)));
            }
            ts
        }
        Some(x) => {
            proof {
                assert(ts@ =~= orig.drop_last());
                assert(abs_mts(orig).drop_last() =~= abs_mts(orig.drop_last()));
                assert(abs_mts(orig).last() == abs_mt(x));
            }
            let mut sorted = sort_media_types(ts);
            insert_media_type(&mut sorted, x);
            sorted
        }
    }
}

/// Whether some available representation has the given media type.
fn contains_mime(avail: &Vec<Mime>, m: &Mime) -> (b: bool)
    ensures
        b == avail_has(avail@, m.essence@),
{
    let mut i: usize = 0;
    while i < avail.len()
        invariant
            i <= avail@.len(),
            forall|j: int| 0 <= j < i ==> (#[trigger] avail@[j]).essence@ != m.essence@,
        decreases avail@.len() - i,
    {
        if avail[i].eq(m) {
            return true;
        }
        i = i + 1;
    }
    false
}

impl Accept {
    /// Parses a full `Accept` header value: splits on `,`, parses each
    /// segment, retains the last wildcard entry, cascades its weight onto
    /// unweighted entries, and sorts the rest by descending priority.
    /// The first failing segment aborts the parse with its error.
    pub fn from_str(s: &str) -> (r: Result<Accept, Error>)
        ensures
            ({
                let parts = split_at_char(s@, ',');
                match r {
                    Ok(a) => {
                        &&& all_parts_ok(parts)
                        &&& abs_opt_mt(a.wildcard) == model_wildcard(parts)
                        &&& abs_mts(a.types@) == model_types(parts)
                        &&& a.wf()
                        &&& sorted_desc(abs_mts(a.types@))
                        &&& a.cascade_stable()
                    },
                    Err(e) => exists|k: int|
                        0 <= k < parts.len() && !part_ok(#[trigger] parts[k]) && (forall|j: int|
                            0 <= j < k ==> part_ok(#[trigger] parts[j])) && media_type_result(
                            parts[k],
                            Err(e),
                        ),
                }
            }),
    {
        let v = chars_of(s);
        let parts = split_chars(&v, ',');
        let ghost pv = split_at_char(v@, ',');
        let mut wildcard: Option<MediaType> = None;
        let mut types: Vec<MediaType> = Vec::new();
        let mut i: usize = 0;
        while i < parts.len()
            invariant
                i <= parts@.len(),
                v@ == s@,
                pv == split_at_char(v@, ','),
                crate::text::views(parts@) == pv,
                forall|j: int| 0 <= j < i ==> part_ok(#[trigger] pv[j]),
                abs_opt_mt(wildcard) == model_wildcard(pv.take(i as int)),
                abs_mts(types@) == model_types_raw(pv.take(i as int)),
                match wildcard {
                    Some(w) => w.wf() && wildcard_essence(w.mime.essence@),
                    None => true,
                },
                entries_wf(types@),
            decreases parts@.len() - i,
        {
            proof {
                assert(parts@[i as int]@ == pv[i as int]);
            }
            let mt_r = MediaType::from_chars(&parts[i]);
            proof {
                crate::media_type::lemma_media_type_parts(pv[i as int], mt_r);
            }
            match mt_r {
                Err(e) => {
                    proof {
                        assert(!part_ok(split_at_char(s@, ',')[i as int]));
                        assert(media_type_result(split_at_char(s@, ',')[i as int], Err(e)));
                    }
                    return Err(e);
                }
                Ok(mt) => {
                    let ghost taken = pv.take(i + 1);
                    proof {
                        assert(taken.drop_last() =~= pv.take(i as int));
                        assert(taken.last() == pv[i as int]);
                        assert(abs_mt(mt) == entry_of(pv[i as int]));
                    }
                    if mt.mime.is_wildcard() {
                        wildcard = Some(mt);
                    } else {
                        types.push(mt);
                        proof {
                            assert(abs_mts(types@) =~= model_types_raw(taken));
                        }
                    }
                }
            }
            i = i + 1;
        }
        proof {
            assert(pv.take(pv.len() as int) =~= pv);
        }
        let wq: Option<u32> = match &wildcard {
            Some(w) => w.weight,
            None => None,
        };
        let cascaded = match wq {
            Some(q) => cascade_media_types(types, q),
            None => types,
        };
        let sorted = sort_media_types(cascaded);
        proof {
            let c = cascade(model_types_raw(pv), model_wild_weight(pv));
            lemma_sort_desc_sorted(c);
            match &wildcard {
                Some(w) => match w.weight {
                    Some(q) => {
                        assert(model_wild_weight(pv) == Some(q as int));
                        assert forall|i: int|
                            0 <= i < sorted@.len() implies (#[trigger] sorted@[i]).weight
                            is Some by {
                            assert(abs_mts(sorted@)[i] == abs_mt(sorted@[i]));
                            let j = choose|j: int|
                                0 <= j < c.len() && c[j] == abs_mts(sorted@)[i];
                            assert(c[j].1 is Some);
                        }
                    }
                    None => {}
                },
                None => {}
            }
        }
        Ok(Accept { wildcard, types: sorted })
    }

    /// Determines the most suitable representation: the first entry, in
    /// stored priority order, whose media type is available; otherwise,
    /// with a wildcard present, the first available representation;
    /// otherwise the negotiation fails as not acceptable.
    pub fn negotiate(&self, available: &Vec<Mime>) -> (r: Result<Mime, Error>)
        ensures
            match first_match(self.types@, available@) {
                Some(i) => r matches Ok(m) && 0 <= i < self.types@.len() && m.essence@
                    == self.types@[i].mime.essence@,
                None => if self.wildcard is Some && available@.len() > 0 {
                    r matches Ok(m) && m.essence@ == available@[0].essence@
                } else {
                    r matches Err(e) && e is NotAcceptable
                },
            },
    {
        let mut i: usize = 0;
        while i < self.types.len()
            invariant
                i <= self.types@.len(),
                forall|j: int|
                    0 <= j < i ==> !avail_has(available@, (#[trigger] self.types@[j]).mime.essence@),
            decreases self.types@.len() - i,
        {
            if contains_mime(available, &self.types[i].mime) {
                proof {
                    lemma_first_match_at(self.types@, available@, i as int);
                }
                return Ok(Mime { essence: self.types[i].mime.essence.clone() });
            }
            i = i + 1;
        }
        proof {
            lemma_first_match_none(self.types@, available@);
        }
        if self.wildcard.is_some() {
            if available.len() > 0 {
                return Ok(Mime { essence: available[0].essence.clone() });
            }
        }
        Err(Error::NotAcceptable)
    }

    /// Renders the value, as `render_accept` describes: the entries in
    /// stored order joined by `", "`, then the wildcard entry last.
    pub fn to_string(&self) -> (r: String)
        requires
            self.weights_ok(),
        ensures
            r@ == render_accept(*self),
    {
        let mut out = String::new();
        let mut i: usize = 0;
        while i < self.types.len()
            invariant
                self.weights_ok(),
                i <= self.types@.len(),
                out@ == join_entries(self.types@.take(i as int)),
            decreases self.types@.len() - i,
        {
            if i > 0 {
                push_char(&mut out, ',');
                push_char(&mut out, ' ');
            }
            let entry = self.types[i].to_string();
            out.append(entry.as_str());
            proof {
                let pre = self.types@.take(i as int);
                lemma_join_snoc(pre, self.types@[i as int]);
                assert(self.types@.take(i + 1) =~= pre.push(self.types@[i as int]));
                assert(out@ =~= join_entries(self.types@.take(i + 1)));
            }
            i = i + 1;
        }
        proof {
            assert(self.types@.take(self.types@.len() as int) =~= self.types@);
        }
        match &self.wildcard {
            None => {}
            Some(w) => {
                push_char(&mut out, ',');
                push_char(&mut out, ' ');
                let entry = w.to_string();
                out.append(entry.as_str());
                proof {
                    assert(out@ =~= render_accept(*self));
                }
            }
        }
        out
    }

    /// Wraps a bare mime value: one entry with no weight, no wildcard
    /// slot.
    pub fn from(mime: Mime) -> (r: Accept) {
        Accept { wildcard: None, types: vec![MediaType { mime, weight: None }] }
    }
}

/// No character of a well-formed rendered entry is a comma or whitespace.
proof fn lemma_render_entry_chars(mt: MediaType)
    requires
        mt.wf(),
    ensures
        forall|j: int|
            0 <= j < render_entry(mt).len() ==> ((#[trigger] render_entry(mt)[j]) != ','
                && !crate::text::is_space(render_entry(mt)[j])),
{
    let e = mt.mime.essence@;
    match mt.weight {
        None => {}
        Some(w) => {
            crate::weight::lemma_render_weight_chars(w as int);
            let r = render_entry(mt);
            assert forall|j: int|
                0 <= j < r.len() implies ((#[trigger] r[j]) != ',' && !crate::text::is_space(
                r[j],
            )) by {
                if j < e.len() {
                    assert(r[j] == e[j]);
                } else if j < e.len() + 3 {
                } else {
                    assert(r[j] == render_weight(w as int)[j - e.len() - 3]);
                }
            }
        }
    }
}

/// A rendered entry, with or without one leading space, parses back to
/// the entry it renders.
proof fn lemma_entry_parses(mt: MediaType, sp: bool)
    requires
        mt.wf(),
    ensures
        ({
            let p = (if sp {
                seq![' ']
            } else {
                Seq::<char>::empty()
            }) + render_entry(mt);
            &&& part_ok(p)
            &&& entry_of(p) == abs_mt(mt)
            &&& is_wild_part(p) == wildcard_essence(mt.mime.essence@)
        }),
{
    let e = mt.mime.essence@;
    let sps: Seq<char> = if sp {
        seq![' ']
    } else {
        Seq::<char>::empty()
    };
    let p = sps + render_entry(mt);
    let m = sps + e;
    if sp {
        crate::text::lemma_trim_uncons_space(e);
        assert(m =~= seq![' '] + e);
    } else {
        assert(m =~= e);
    }
    crate::text::lemma_trim_id(e);
    assert(trim(m) == e);
    match mt.weight {
        None => {
            assert(p =~= m);
            crate::media_type::lemma_segment_without_weight(p);
        }
        Some(w) => {
            let rw = crate::weight::render_weight(w as int);
            crate::weight::lemma_render_weight_chars(w as int);
            crate::weight::lemma_render_weight_parses(w as int);
            assert(p =~= m + seq![';', 'q', '='] + rw);
            crate::media_type::lemma_weight_segment(m, rw);
        }
    }
}

/// Splitting the join of well-formed entries on `,` recovers each
/// rendered entry, the later ones behind one space.
proof fn lemma_split_join_entries(l: Seq<MediaType>)
    requires
        l.len() >= 1,
        forall|i: int| 0 <= i < l.len() ==> (#[trigger] l[i]).wf(),
    ensures
        ({
            let parts = split_at_char(join_entries(l), ',');
            &&& parts.len() == l.len()
            &&& parts[0] == render_entry(l[0])
            &&& forall|i: int| 1 <= i < l.len() ==> parts[i] == seq![' '] + render_entry(l[i])
        }),
    decreases l.len(),
{
    lemma_render_entry_chars(l[0]);
    if l.len() == 1 {
        crate::text::lemma_find_char_none(join_entries(l), ',');
    } else {
        let rest = l.drop_first();
        assert(forall|i: int| 0 <= i < rest.len() ==> rest[i] == l[i + 1]);
        lemma_split_join_entries(rest);
        let tail = seq![' '] + join_entries(rest);
        assert(join_entries(l) =~= render_entry(l[0]) + seq![','] + tail);
        crate::text::lemma_split_prepend(render_entry(l[0]), tail, ',');
        crate::text::lemma_split_uncons(' ', join_entries(rest), ',');
        let pr = split_at_char(join_entries(rest), ',');
        let parts = split_at_char(join_entries(l), ',');
        assert(parts =~= seq![render_entry(l[0])] + (seq![seq![' '] + pr[0]] + pr.subrange(
            1,
            pr.len() as int,
        )));
        assert forall|i: int| 1 <= i < l.len() implies parts[i] == seq![' '] + render_entry(
            l[i],
        ) by {
            if i >= 2 {
                assert(parts[i] == pr[i - 1]);
            }
        }
    }
}

/// Scanning parts that parse to non-wildcard entries retains no wildcard
/// and keeps the entries in order.
proof fn lemma_scan_plain(parts: Seq<Seq<char>>, ts: Seq<MediaType>)
    requires
        parts.len() == ts.len(),
        forall|i: int|
            0 <= i < parts.len() ==> part_ok(#[trigger] parts[i]) && entry_of(parts[i]) == abs_mt(
                ts[i],
            ) && !is_wild_part(parts[i]),
    ensures
        model_wildcard(parts) is None,
        model_types_raw(parts) == abs_mts(ts),
    decreases parts.len(),
{
    if parts.len() == 0 {
        assert(model_types_raw(parts) =~= abs_mts(ts));
    } else {
        let pf = parts.drop_last();
        let tf = ts.drop_last();
        assert(forall|i: int| 0 <= i < pf.len() ==> pf[i] == parts[i]);
        assert(forall|i: int| 0 <= i < tf.len() ==> tf[i] == ts[i]);
        lemma_scan_plain(pf, tf);
        assert(entry_of(parts.last()) == abs_mt(ts.last()));
        assert(model_types_raw(parts) =~= abs_mts(ts));
    }
}

/// A descending list is its own stable sort.
proof fn lemma_sort_desc_id(l: Seq<(Seq<char>, Option<int>)>)
    requires
        sorted_desc(l),
    ensures
        sort_desc(l) == l,
    decreases l.len(),
{
    if l.len() > 0 {
        let front = l.drop_last();
        assert(forall|i: int| 0 <= i < front.len() ==> front[i] == l[i]);
        assert(sorted_desc(front));
        lemma_sort_desc_id(front);
        lemma_insert_desc_at(l.last(), front, front.len() as int);
        assert(front.subrange(0, front.len() as int) =~= front);
        assert(sort_desc(l) =~= l);
    }
}

/// Formatting and reparsing is the identity, read over the models: for a
/// well-formed `Accept` in sorted order with the cascade already applied
/// and at least one non-wildcard entry, parsing `to_string`'s output
/// yields the same wildcard and the same types, in the same order.
pub proof fn lemma_format_parse_roundtrip(a: Accept)
    requires
        a.wf(),
        sorted_desc(abs_mts(a.types@)),
        a.cascade_stable(),
        a.types@.len() > 0,
    ensures
        ({
            let parts = split_at_char(render_accept(a), ',');
            &&& all_parts_ok(parts)
            &&& model_wildcard(parts) == abs_opt_mt(a.wildcard)
            &&& model_types(parts) == abs_mts(a.types@)
        }),
{
    let ts = a.types@;
    let l = match a.wildcard {
        Some(w) => ts.push(w),
        None => ts,
    };
    // The rendering is the join of every entry, the wildcard last.
    match a.wildcard {
        Some(w) => {
            lemma_join_snoc(ts, w);
            assert(render_accept(a) == join_entries(l));
        }
        None => {
            assert(render_accept(a) == join_entries(l));
        }
    }
    assert(forall|i: int| 0 <= i < ts.len() ==> l[i] == ts[i]);
    lemma_split_join_entries(l);
    let parts = split_at_char(render_accept(a), ',');
    assert forall|i: int|
        0 <= i < parts.len() implies part_ok(#[trigger] parts[i]) && entry_of(parts[i]) == abs_mt(
        l[i],
    ) && is_wild_part(parts[i]) == wildcard_essence(l[i].mime.essence@) by {
        lemma_entry_parses(l[i], i > 0);
        if i == 0 {
            assert(parts[i] =~= Seq::<char>::empty() + render_entry(l[i]));
        }
    }
    // Scanning recovers the wildcard and the plain entries.
    let pf = parts.subrange(0, ts.len() as int);
    assert(forall|i: int| 0 <= i < pf.len() ==> pf[i] == parts[i]);
    lemma_scan_plain(pf, ts);
    match a.wildcard {
        Some(w) => {
            assert(parts.last() == parts[ts.len() as int]);
            assert(is_wild_part(parts.last()));
            assert(model_wildcard(parts) == Some(abs_mt(w)));
            assert(parts.drop_last() =~= pf);
            assert(model_types_raw(parts) == abs_mts(ts));
        }
        None => {
            assert(parts =~= pf);
        }
    }
    // The cascade changes nothing: the wildcard weight, when present, is
    // already on every entry.
    let wq = model_wild_weight(parts);
    match a.wildcard {
        Some(w) => {
            match w.weight {
                Some(q) => {
                    assert(wq == Some(q as int));
                    assert forall|i: int|
                        0 <= i < ts.len() implies (#[trigger] abs_mts(ts)[i]).1 is Some by {
                        assert(ts[i].weight is Some);
                    }
                    assert(cascade(abs_mts(ts), wq) =~= abs_mts(ts));
                }
                None => {
                    assert(wq is None);
                }
            }
        }
        None => {
            assert(wq is None);
        }
    }
    // The list is already in sorted order.
    lemma_sort_desc_id(abs_mts(ts));
}

impl PartialEq for Accept {
    fn eq(&self, other: &Self) -> (r: bool) {
        let wild_eq = match (&self.wildcard, &other.wildcard) {
            (Some(a), Some(b)) => a.eq(b),
            (None, None) => true,
            _ => false,
        };
        if !wild_eq {
            return false;
        }
        if self.types.len() != other.types.len() {
            proof {
                assert(abs_mts(self.types@).len() == self.types@.len());
                assert(abs_mts(other.types@).len() == other.types@.len());
            }
            return false;
        }
        let mut i: usize = 0;
        while i < self.types.len()
            invariant
                self.types@.len() == other.types@.len(),
                i <= self.types@.len(),
                forall|j: int|
                    0 <= j < i ==> abs_mt(#[trigger] self.types@[j]) == abs_mt(other.types@[j]),
            decreases self.types@.len() - i,
        {
            if !self.types[i].eq(&other.types[i]) {
                proof {
                    assert(abs_mts(self.types@)[i as int] == abs_mt(self.types@[i as int]));
                    assert(abs_mts(other.types@)[i as int] == abs_mt(other.types@[i as int]));
                }
                return false;
            }
            i = i + 1;
        }
        proof {
            assert(abs_mts(self.types@) =~= abs_mts(other.types@));
        }
        true
    }
}

impl vstd::std_specs::cmp::PartialEqSpecImpl for Accept {
    open spec fn obeys_eq_spec() -> bool {
        true
    }

    open spec fn eq_spec(&self, other: &Self) -> bool {
        &&& match (self.wildcard, other.wildcard) {
            (Some(a), Some(b)) => abs_mt(a) == abs_mt(b),
            (None, None) => true,
            _ => false,
        }
        &&& abs_mts(self.types@) == abs_mts(other.types@)
    }
}

} // verus!
