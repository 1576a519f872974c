use vstd::prelude::*;
use vstd::string::*;
use vstd::utf8::*;
use crate::error::Error;
use crate::strings::{utf8_text, lemma_boundary_local, lemma_boundary_in_range, lemma_after_ascii, lemma_valid_between};

verus! {

broadcast use {encode_utf8_valid_utf8, encode_utf8_decode_utf8};

/// The offsets at which the two bytes `p0 p1` occur in `b` from offset `i`
/// on, found left to right, each search resuming after the previous match.
pub open spec fn occurrences(b: Seq<u8>, p0: u8, p1: u8, i: int) -> Seq<int>
    decreases b.len() - i,
{
    if i < 0 || i + 2 > b.len() {
        Seq::empty()
    } else if b[i] == p0 && b[i + 1] == p1 {
        seq![i] + occurrences(b, p0, p1, i + 2)
    } else {
        occurrences(b, p0, p1, i + 1)
    }
}

/// Each occurrence found from `i` on lies at or after `i`, holds the two
/// bytes, and starts at least two bytes after the one before it.
pub proof fn lemma_occurrences(b: Seq<u8>, p0: u8, p1: u8, i: int)
    requires
        0 <= i,
    ensures
        forall|k: int| 0 <= k < occurrences(b, p0, p1, i).len() ==> {
            &&& i <= #[trigger] occurrences(b, p0, p1, i)[k]
            &&& occurrences(b, p0, p1, i)[k] + 2 <= b.len()
            &&& b[occurrences(b, p0, p1, i)[k]] == p0
            &&& b[occurrences(b, p0, p1, i)[k] + 1] == p1
        },
        forall|k: int| 0 <= k < occurrences(b, p0, p1, i).len() - 1
            ==> #[trigger] occurrences(b, p0, p1, i)[k] + 2 <= occurrences(b, p0, p1, i)[k + 1],
    decreases b.len() - i,
{
    if i + 2 > b.len() {
    } else if b[i] == p0 && b[i + 1] == p1 {
        lemma_occurrences(b, p0, p1, i + 2);
        let rest = occurrences(b, p0, p1, i + 2);
        let all = occurrences(b, p0, p1, i);
        assert(all == seq![i] + rest);
        assert forall|k: int| 0 <= k < all.len() - 1 implies #[trigger] all[k] + 2 <= all[k + 1] by {
            if k > 0 {
                assert(all[k] == rest[k - 1]);
                assert(all[k + 1] == rest[k]);
            } else {
                assert(all[1] == rest[0]);
            }
        }
        assert forall|k: int| 0 <= k < all.len() implies {
            &&& i <= #[trigger] all[k]
            &&& all[k] + 2 <= b.len()
            &&& b[all[k]] == p0
            &&& b[all[k] + 1] == p1
        } by {
            if k > 0 {
                assert(all[k] == rest[k - 1]);
            }
        }
    } else {
        lemma_occurrences(b, p0, p1, i + 1);
        assert(occurrences(b, p0, p1, i) == occurrences(b, p0, p1, i + 1));
    }
}

/// The offsets of the two bytes `p0 p1` in `b`, as `occurrences` finds them.
fn find_pairs(b: &[u8], p0: u8, p1: u8) -> (v: Vec<usize>)
    ensures
        v@.len() == occurrences(b@, p0, p1, 0).len(),
        forall|k: int| 0 <= k < v@.len() ==> #[trigger] v@[k] == occurrences(b@, p0, p1, 0)[k],
{
    let mut out: Vec<usize> = Vec::new();
    let mut i: usize = 0;
    let n = b.len();
    while n >= 2 && i <= n - 2
        invariant
            n == b@.len(),
            i <= n,
            occurrences(b@, p0, p1, 0).len() == out@.len() + occurrences(b@, p0, p1, i as int).len(),
            forall|k: int| 0 <= k < out@.len() ==> #[trigger] out@[k] == occurrences(b@, p0, p1, 0)[k],
            forall|k: int| 0 <= k < occurrences(b@, p0, p1, i as int).len()
                ==> #[trigger] occurrences(b@, p0, p1, i as int)[k] == occurrences(b@, p0, p1, 0)[out@.len() + k],
        decreases n - i,
    {
        let ghost before = occurrences(b@, p0, p1, i as int);
        if b[i] == p0 && b[i + 1] == p1 {
            proof {
                assert(before == seq![i as int] + occurrences(b@, p0, p1, i + 2));
                assert(before[0] == i);
                assert forall|k: int| 0 <= k < occurrences(b@, p0, p1, i + 2).len()
                    implies #[trigger] occurrences(b@, p0, p1, i + 2)[k] == occurrences(b@, p0, p1, 0)[out@.len() + 1 + k] by {
                    assert(before[k + 1] == occurrences(b@, p0, p1, i + 2)[k]);
                }
            }
            out.push(i);
            i = i + 2;
        } else {
            i = i + 1;
        }
    }
    proof {
        assert(occurrences(b@, p0, p1, i as int) == Seq::<int>::empty());
    }
    out
}

/// A `{{ name }}` placeholder of a template: its bytes run from `start`
/// (the opening braces) to `end` (just after the closing braces).
#[derive(Debug)]
pub struct SecretSlot {
    pub start: usize,
    pub end: usize,
    pub name: String,
}

/// The offsets of the opening braces `{{` in `b`.
pub open spec fn opens(b: Seq<u8>) -> Seq<int> {
    occurrences(b, 0x7b, 0x7b, 0)
}

/// The offsets of the closing braces `}}` in `b`.
pub open spec fn closes(b: Seq<u8>) -> Seq<int> {
    occurrences(b, 0x7d, 0x7d, 0)
}

/// Each opening braces come no later than the closing braces they pair
/// with, where they are paired at all.
pub open spec fn pairs_in_order(b: Seq<u8>) -> bool {
    opens(b).len() == 0 || opens(b).len() != closes(b).len()
        || forall|k: int| 0 <= k < opens(b).len() ==> #[trigger] opens(b)[k] + 2 <= closes(b)[k]
}

/// Each placeholder closes before the next one opens.
pub open spec fn placeholders_apart(b: Seq<u8>) -> bool {
    forall|k: int| 0 <= k < opens(b).len() - 1 && k < closes(b).len() ==> #[trigger] closes(b)[k] + 2 <= opens(b)[k + 1]
}

/// The characters with the Unicode property White_Space, which `str::trim`
/// removes from both ends of a text.
pub open spec fn is_white_space(c: char) -> bool {
    let u = c as u32;
    ||| 0x9 <= u <= 0xd
    ||| u == 0x20 || u == 0x85 || u == 0xa0 || u == 0x1680
    ||| 0x2000 <= u <= 0x200a
    ||| u == 0x2028 || u == 0x2029 || u == 0x202f || u == 0x205f || u == 0x3000
}

/// The number of whitespace characters at the start of `s`.
pub open spec fn leading_white(s: Seq<char>) -> nat
    decreases s.len(),
{
    if s.len() == 0 || !is_white_space(s[0]) {
        0
    } else {
        1 + leading_white(s.drop_first())
    }
}

/// The number of whitespace characters at the end of `s`.
pub open spec fn trailing_white(s: Seq<char>) -> nat
    decreases s.len(),
{
    if s.len() == 0 || !is_white_space(s.last()) {
        0
    } else {
        1 + trailing_white(s.drop_last())
    }
}

/// `s` without its leading and trailing whitespace.
pub open spec fn trimmed(s: Seq<char>) -> Seq<char> {
    let a = leading_white(s) as int;
    if a >= s.len() {
        Seq::empty()
    } else {
        s.subrange(a, s.len() - trailing_white(s))
    }
}

/// `str::trim`: `text` without its leading and trailing whitespace, which
/// std defines as the characters with the Unicode property White_Space.
#[verifier::external_body]
fn trim_text(text: &str) -> (r: &str)
    ensures
        r@ == trimmed(text@),
{
    text.trim()
}

/// Whether the braces of `template` pair up in order.
pub fn braces_in_order(template: &str) -> (ok: bool)
    ensures
        ok == pairs_in_order(template.spec_bytes()),
{
    let b = template.as_bytes();
    let o = find_pairs(b, 0x7b, 0x7b);
    let c = find_pairs(b, 0x7d, 0x7d);
    if o.len() == 0 || o.len() != c.len() {
        return true;
    }
    let mut k: usize = 0;
    while k < o.len()
        invariant
            b@ == template.spec_bytes(),
            o@.len() == c@.len(),
            o@.len() == opens(b@).len(),
            c@.len() == closes(b@).len(),
            forall|j: int| 0 <= j < o@.len() ==> #[trigger] o@[j] == opens(b@)[j],
            forall|j: int| 0 <= j < c@.len() ==> #[trigger] c@[j] == closes(b@)[j],
            k <= o@.len(),
            forall|j: int| 0 <= j < k ==> #[trigger] opens(b@)[j] + 2 <= closes(b@)[j],
        decreases o@.len() - k,
    {
        if o[k] > c[k] || c[k] - o[k] < 2 {
            proof {
                assert(!(opens(b@)[k as int] + 2 <= closes(b@)[k as int]));
                assert(opens(b@).len() != 0);
                assert(opens(b@).len() == closes(b@).len());
                assert(!pairs_in_order(b@));
            }
            return false;
        }
        k = k + 1;
    }
    true
}

/// The `{{ name }}` placeholders of `template`: the `k`-th opening braces
/// pair with the `k`-th closing braces, and the name is the text between
/// them, trimmed. None when there are no opening braces; an error when the
/// two kinds of braces are not as many.
pub fn secret_slots(template: &str) -> (r: Result<Vec<SecretSlot>, Error>)
    requires
        pairs_in_order(template.spec_bytes()),
    ensures
        ({
            let b = template.spec_bytes();
            &&& opens(b).len() == 0 ==> (r matches Ok(v) && v@.len() == 0)
            &&& opens(b).len() > 0 && opens(b).len() != closes(b).len()
                ==> (r matches Err(e) && e.says("unmatched {{"@))
            &&& opens(b).len() > 0 && opens(b).len() == closes(b).len() ==> (r matches Ok(v) && {
                &&& v@.len() == opens(b).len()
                &&& forall|k: int| 0 <= k < v@.len() ==> {
                    &&& #[trigger] v@[k].start == opens(b)[k]
                    &&& v@[k].end == closes(b)[k] + 2
                    &&& v@[k].name@ == trimmed(decode_utf8(b.subrange(opens(b)[k] + 2, closes(b)[k])))
                }
            })
            // placeholders that do not nest give slots that can be filled
            &&& placeholders_apart(b) ==> (r matches Ok(v) ==> slots_fit(b, v@))
        }),
{
    let b = template.as_bytes();
    let ghost bs = b@;
    let o = find_pairs(b, 0x7b, 0x7b);
    if o.len() == 0 {
        return Ok(Vec::new());
    }
    let c = find_pairs(b, 0x7d, 0x7d);
    if c.len() != o.len() {
        return Err(Error::new("unmatched {{"));
    }
    let n = b.len();
    proof {
        lemma_occurrences(bs, 0x7b, 0x7b, 0);
        lemma_occurrences(bs, 0x7d, 0x7d, 0);
    }
    let mut slots: Vec<SecretSlot> = Vec::new();
    let mut k: usize = 0;
    while k < o.len()
        invariant
            bs == template.spec_bytes(),
            b@ == bs,
            n == bs.len(),
            pairs_in_order(bs),
            o@.len() == c@.len(),
            o@.len() == opens(bs).len(),
            c@.len() == closes(bs).len(),
            o@.len() > 0,
            forall|j: int| 0 <= j < o@.len() ==> #[trigger] o@[j] == opens(bs)[j],
            forall|j: int| 0 <= j < c@.len() ==> #[trigger] c@[j] == closes(bs)[j],
            forall|j: int| 0 <= j < opens(bs).len() ==> {
                &&& #[trigger] opens(bs)[j] + 2 <= bs.len()
                &&& bs[opens(bs)[j] + 1] == 0x7b
            },
            forall|j: int| 0 <= j < closes(bs).len() ==> {
                &&& #[trigger] closes(bs)[j] + 2 <= bs.len()
                &&& bs[closes(bs)[j]] == 0x7d
            },
            k <= o@.len(),
            slots@.len() == k,
            forall|j: int| 0 <= j < k ==> {
                &&& #[trigger] slots@[j].start == opens(bs)[j]
                &&& slots@[j].end == closes(bs)[j] + 2
                &&& slots@[j].name@ == trimmed(decode_utf8(bs.subrange(opens(bs)[j] + 2, closes(bs)[j])))
            },
        decreases o@.len() - k,
    {
        let open = o[k];
        let close = c[k];
        proof {
            assert(opens(bs)[k as int] + 2 <= closes(bs)[k as int]);
            let from = open + 2;
            lemma_after_ascii(bs, open + 1);
            lemma_boundary_local(bs, close as int);
            lemma_valid_between(bs, from as int, close as int);
        }
        let inner = utf8_text(vstd::slice::slice_subrange(b, open + 2, close));
        let name = trim_text(inner).to_owned();
        slots.push(SecretSlot { start: open, end: close + 2, name });
        k = k + 1;
    }
    proof {
        lemma_slots_fit(bs, slots@);
    }
    Ok(slots)
}

/// `c` with the bytes from `s` to `e` replaced by `v`.
pub open spec fn splice(c: Seq<u8>, s: int, e: int, v: Seq<u8>) -> Seq<u8> {
    c.subrange(0, s) + v + c.subrange(e, c.len() as int)
}

/// The text after the last `m` placeholders of `slots` were filled with their
/// values, the last first.
pub open spec fn filled_last(b: Seq<u8>, slots: Seq<SecretSlot>, values: Seq<String>, m: nat) -> Seq<u8>
    decreases m,
{
    if m == 0 || m > slots.len() {
        b
    } else {
        let k = slots.len() - m;
        splice(filled_last(b, slots, values, (m - 1) as nat), slots[k].start as int, slots[k].end as int,
            encode_utf8(values[k]@))
    }
}

/// Every placeholder, when its turn comes, spans whole characters of the
/// text as it is by then.
pub open spec fn fill_ok(b: Seq<u8>, slots: Seq<SecretSlot>, values: Seq<String>) -> bool {
    forall|m: nat| m < slots.len() ==> #[trigger] step_ok(b, slots, values, m)
}

/// The placeholder filled after the last `m` ones spans whole characters of
/// the text as it is by then.
pub open spec fn step_ok(b: Seq<u8>, slots: Seq<SecretSlot>, values: Seq<String>, m: nat) -> bool {
    let c = filled_last(b, slots, values, m);
    let slot = slots[slots.len() - 1 - m];
    &&& slot.start <= slot.end
    &&& is_char_boundary(c, slot.start as int)
    &&& is_char_boundary(c, slot.end as int)
}

/// Whether offset `i` starts a character of the valid text `b` or ends it.
fn boundary_at(b: &Vec<u8>, i: usize) -> (ok: bool)
    requires
        valid_utf8(b@),
    ensures
        ok == is_char_boundary(b@, i as int),
{
    proof {
        if is_char_boundary(b@, i as int) {
            lemma_boundary_in_range(b@, i as int);
        }
    }
    if i > b.len() {
        return false;
    }
    proof {
        lemma_boundary_local(b@, i as int);
    }
    if i == b.len() {
        return true;
    }
    !(0x80 <= b[i] && b[i] <= 0xbf)
}

/// `template` with each placeholder of `slots` replaced by the value at the
/// same index of `values`, from the last placeholder to the first; `None`
/// when a placeholder, when its turn comes, does not span whole characters.
pub fn fill_secrets(template: &str, slots: &Vec<SecretSlot>, values: &Vec<String>) -> (r: Option<String>)
    requires
        slots@.len() == values@.len(),
    ensures
        r is Some <==> fill_ok(template.spec_bytes(), slots@, values@),
        // placeholders in order on character boundaries are always filled,
        // whatever the values
        slots_fit(template.spec_bytes(), slots@) ==> r is Some,
        r matches Some(t) ==> encode_utf8(t@) == filled_last(template.spec_bytes(), slots@, values@, slots@.len()),
{
    let ghost b = template.spec_bytes();
    proof {
        if slots_fit(b, slots@) {
            lemma_fitting_slots_fill(b, slots@, values@);
        }
    }
    let mut buf: Vec<u8> = vstd::slice::slice_to_vec(template.as_bytes());
    let n = slots.len();
    let mut m: usize = 0;
    while m < n
        invariant
            b == template.spec_bytes(),
            n == slots@.len(),
            slots@.len() == values@.len(),
            m <= n,
            buf@ == filled_last(b, slots@, values@, m as nat),
            valid_utf8(buf@),
            forall|j: nat| j < m ==> #[trigger] step_ok(b, slots@, values@, j),
            slots_fit(b, slots@) ==> fill_ok(b, slots@, values@),
        decreases n - m,
    {
        let k = n - 1 - m;
        let start = slots[k].start;
        let end = slots[k].end;
        if !(start <= end && boundary_at(&buf, start) && boundary_at(&buf, end)) {
            proof {
                let c = filled_last(b, slots@, values@, m as nat);
                assert(c == buf@);
                assert(slots@[slots@.len() - 1 - m] == slots@[k as int]);
                assert(!step_ok(b, slots@, values@, m as nat));
            }
            return None;
        }
        let value = values[k].as_str().as_bytes();
        proof {
            lemma_valid_between(buf@, start as int, end as int);
        }
        let mut next: Vec<u8> = Vec::new();
        let mut i: usize = 0;
        while i < start
            invariant
                i <= start <= end <= buf@.len(),
                next@ == buf@.subrange(0, i as int),
            decreases start - i,
        {
            next.push(buf[i]);
            i = i + 1;
        }
        let mut j: usize = 0;
        while j < value.len()
            invariant
                j <= value@.len(),
                next@ == buf@.subrange(0, start as int) + value@.subrange(0, j as int),
            decreases value@.len() - j,
        {
            next.push(value[j]);
            j = j + 1;
        }
        let mut i: usize = end;
        while i < buf.len()
            invariant
                end <= i <= buf@.len(),
                next@ == buf@.subrange(0, start as int) + value@ + buf@.subrange(end as int, i as int),
            decreases buf@.len() - i,
        {
            next.push(buf[i]);
            i = i + 1;
        }
        proof {
            assert(value@.subrange(0, value@.len() as int) =~= value@);
            assert(buf@.subrange(end as int, buf@.len() as int) =~= buf@.subrange(end as int, buf@.len() as int));
            assert(next@ =~= splice(buf@, start as int, end as int, value@));
            valid_utf8_concat(buf@.subrange(0, start as int), value@);
            valid_utf8_concat(buf@.subrange(0, start as int) + value@, buf@.subrange(end as int, buf@.len() as int));
            assert(filled_last(b, slots@, values@, (m + 1) as nat) == splice(filled_last(b, slots@, values@, m as nat),
                slots@[k as int].start as int, slots@[k as int].end as int, encode_utf8(values@[k as int]@)));
        }
        proof {
            let c = filled_last(b, slots@, values@, m as nat);
            assert(c == buf@);
            assert(slots@[slots@.len() - 1 - m] == slots@[k as int]);
            assert(is_char_boundary(c, slots@[slots@.len() - 1 - m].start as int));
            assert(is_char_boundary(c, slots@[slots@.len() - 1 - m].end as int));
            assert(slots@[slots@.len() - 1 - m].start <= slots@[slots@.len() - 1 - m].end);
            assert(step_ok(b, slots@, values@, m as nat));
        }
        buf = next;
        m = m + 1;
    }
    Some(utf8_text(buf.as_slice()).to_owned())
}

/// The slots lie in the text `b` in order, none overlapping the next, each
/// running forwards between two character boundaries.
pub open spec fn slots_fit(b: Seq<u8>, slots: Seq<SecretSlot>) -> bool {
    &&& forall|k: int| 0 <= k < slots.len() ==> {
        &&& #[trigger] slots[k].start <= slots[k].end <= b.len()
        &&& is_char_boundary(b, slots[k].start as int)
        &&& is_char_boundary(b, slots[k].end as int)
    }
    &&& forall|k: int| 0 <= k < slots.len() - 1 ==> #[trigger] slots[k].end <= slots[k + 1].start
}

/// Two valid texts joined: the boundaries within the first are its own.
proof fn lemma_boundary_in_prefix(a: Seq<u8>, x: Seq<u8>, p: int)
    requires
        valid_utf8(a),
        valid_utf8(x),
        0 <= p <= a.len(),
    ensures
        is_char_boundary(a + x, p) == is_char_boundary(a, p),
{
    valid_utf8_concat(a, x);
    lemma_boundary_local(a, p);
    lemma_boundary_local(a + x, p);
    if p == a.len() && x.len() > 0 {
        is_char_boundary_start_end_of_seq(x);
        lemma_boundary_local(x, 0);
        assert((a + x)[p] == x[0]);
    } else if p < a.len() {
        assert((a + x)[p] == a[p]);
    }
}

/// Up to where the filling from the end has got after `m` placeholders: the
/// start of the last one filled, or the end of the text before any.
pub open spec fn filled_from(b: Seq<u8>, slots: Seq<SecretSlot>, m: nat) -> int {
    if m == 0 { b.len() as int } else { slots[slots.len() - m].start as int }
}

/// Filling the last `m` placeholders of fitting slots leaves valid text that
/// agrees with the template up to where the filling has got, a character
/// boundary of both; each of those steps found its placeholder on boundaries.
proof fn lemma_fill_prefix(b: Seq<u8>, slots: Seq<SecretSlot>, values: Seq<String>, m: nat)
    requires
        valid_utf8(b),
        slots_fit(b, slots),
        slots.len() == values.len(),
        m <= slots.len(),
    ensures
        ({
            let c = filled_last(b, slots, values, m);
            let f = filled_from(b, slots, m);
            &&& valid_utf8(c)
            &&& 0 <= f <= b.len()
            &&& f <= c.len()
            &&& is_char_boundary(b, f)
            &&& is_char_boundary(c, f)
            &&& c.subrange(0, f) == b.subrange(0, f)
        }),
        forall|j: nat| j < m ==> #[trigger] step_ok(b, slots, values, j),
    decreases m,
{
    is_char_boundary_start_end_of_seq(b);
    if m == 0 {
        return;
    }
    let m0 = (m - 1) as nat;
    lemma_fill_prefix(b, slots, values, m0);
    let c = filled_last(b, slots, values, m0);
    let f = filled_from(b, slots, m0);
    let k = slots.len() - 1 - m0;
    let s = slots[k].start as int;
    let e = slots[k].end as int;
    assert(e <= f) by {
        if m0 > 0 {
            assert(slots[k].end <= slots[k + 1].start);
        }
    }
    // boundaries up to `f` are those of the template
    lemma_valid_between(b, 0, f);
    lemma_valid_between(c, 0, f);
    let pre = b.subrange(0, f);
    assert(b =~= pre + b.subrange(f, b.len() as int));
    assert(c =~= pre + c.subrange(f, c.len() as int));
    lemma_boundary_in_prefix(pre, b.subrange(f, b.len() as int), s);
    lemma_boundary_in_prefix(pre, c.subrange(f, c.len() as int), s);
    lemma_boundary_in_prefix(pre, b.subrange(f, b.len() as int), e);
    lemma_boundary_in_prefix(pre, c.subrange(f, c.len() as int), e);
    assert(step_ok(b, slots, values, m0));
    // the next text: the placeholder replaced by its value
    let v = encode_utf8(values[k]@);
    let c2 = filled_last(b, slots, values, m);
    assert(c2 == splice(c, s, e, v));
    lemma_valid_between(c, s, e);
    let head = c.subrange(0, s);
    let tail = c.subrange(e, c.len() as int);
    valid_utf8_concat(v, tail);
    valid_utf8_concat(head, v + tail);
    assert(c2 =~= head + (v + tail));
    is_char_boundary_start_end_of_seq(head);
    lemma_boundary_in_prefix(head, v + tail, s);
    assert(c2.subrange(0, s) =~= head);
    assert(head =~= b.subrange(0, s));
    assert forall|j: nat| j < m implies #[trigger] step_ok(b, slots, values, j) by {
        if j < m0 {
        }
    }
}

/// Placeholders that lie in order on character boundaries can always be
/// filled, whatever the values: filling one never moves or splits the text
/// before it, where the others lie.
pub proof fn lemma_fitting_slots_fill(b: Seq<u8>, slots: Seq<SecretSlot>, values: Seq<String>)
    requires
        valid_utf8(b),
        slots_fit(b, slots),
        slots.len() == values.len(),
    ensures
        fill_ok(b, slots, values),
{
    lemma_fill_prefix(b, slots, values, slots.len());
}

/// The slots that `secret_slots` makes of the braces of `b` run forwards
/// between character boundaries, and fit `b` where the placeholders do not
/// nest.
#[verifier::rlimit(50)]
proof fn lemma_slots_fit(b: Seq<u8>, slots: Seq<SecretSlot>)
    requires
        valid_utf8(b),
        pairs_in_order(b),
        opens(b).len() > 0,
        slots.len() == opens(b).len(),
        slots.len() == closes(b).len(),
        forall|k: int| #![trigger slots[k]] 0 <= k < slots.len() ==> {
            &&& slots[k].start == opens(b)[k]
            &&& slots[k].end == closes(b)[k] + 2
        },
    ensures
        forall|k: int| 0 <= k < slots.len() ==> {
            &&& #[trigger] slots[k].start <= slots[k].end <= b.len()
            &&& is_char_boundary(b, slots[k].start as int)
            &&& is_char_boundary(b, slots[k].end as int)
        },
        placeholders_apart(b) ==> slots_fit(b, slots),
{
    lemma_occurrences(b, 0x7b, 0x7b, 0);
    lemma_occurrences(b, 0x7d, 0x7d, 0);
    assert forall|k: int| 0 <= k < slots.len() implies {
        &&& #[trigger] slots[k].start <= slots[k].end <= b.len()
        &&& is_char_boundary(b, slots[k].start as int)
        &&& is_char_boundary(b, slots[k].end as int)
    } by {
        assert(opens(b)[k] + 2 <= closes(b)[k]);
        lemma_braces_on_boundaries(b, opens(b)[k], closes(b)[k]);
    }
    if placeholders_apart(b) {
        assert forall|k: int| 0 <= k < slots.len() - 1 implies #[trigger] slots[k].end <= slots[k + 1].start by {
            assert(slots[k].start == opens(b)[k] && slots[k].end == closes(b)[k] + 2);
            assert(slots[k + 1].start == opens(b)[k + 1]);
            assert(closes(b)[k] + 2 <= opens(b)[k + 1]);
        }
    }
}

/// Opening braces at `o` and closing braces at `c` sit on character
/// boundaries: before the first `{` and after the last `}`.
proof fn lemma_braces_on_boundaries(b: Seq<u8>, o: int, c: int)
    requires
        valid_utf8(b),
        0 <= o,
        o + 2 <= c,
        c + 2 <= b.len(),
        b[o] == 0x7b,
        b[c + 1] == 0x7d,
    ensures
        is_char_boundary(b, o),
        is_char_boundary(b, c + 2),
{
    lemma_boundary_local(b, o);
    lemma_after_ascii(b, c + 1);
}

} // verus!
