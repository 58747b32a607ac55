//! Strings stored as parts of a fixed byte size, and joined back.
//!
//! A string is cut at every `n`-th char; each part holds the `n` bytes of
//! UTF-8 that start there (or fewer at the end). Parts are joined back by
//! concatenating their bytes and decoding them.
use vstd::prelude::*;
use vstd::string::*;
use vstd::utf8::*;
use crate::text::texts_of;

verus! {

broadcast use vstd::string::group_string_axioms;

/// The byte size of the parts a stored string is cut into.
pub const STRING_PART_SIZE: usize = 128;

/// How many chars the cut moves on by when `s` is left: `n`, or all of `s`.
pub open spec fn step_len(s: Seq<char>, n: nat) -> nat {
    if n < s.len() { n } else { s.len() }
}

/// How many bytes the part at the front of `s` holds: `n`, or the whole encoding when shorter.
pub open spec fn head_len(s: Seq<char>, n: nat) -> nat {
    let b = encode_utf8(s);
    if n < b.len() { n } else { b.len() }
}

/// The text of the part at the front of `s`.
pub open spec fn head_part(s: Seq<char>, n: nat) -> Seq<char> {
    decode_utf8(encode_utf8(s).take(head_len(s, n) as int))
}

/// The parts `s` is cut into with parts of `n` bytes.
pub open spec fn parts_of(s: Seq<char>, n: nat) -> Seq<Seq<char>>
    decreases s.len(),
{
    if s.len() == 0 || n == 0 {
        seq![]
    } else {
        seq![head_part(s, n)] + parts_of(s.skip(step_len(s, n) as int), n)
    }
}

/// Every part that `s` is cut into ends on a char boundary.
pub open spec fn parts_fit(s: Seq<char>, n: nat) -> bool
    decreases s.len(),
{
    if s.len() == 0 || n == 0 {
        true
    } else {
        &&& is_char_boundary(encode_utf8(s), head_len(s, n) as int)
        &&& parts_fit(s.skip(step_len(s, n) as int), n)
    }
}

/// The parts of `input`: one starts at every `part_size`-th char and holds the
/// `part_size` bytes from there, or the rest of the string when fewer are left.
pub fn split_str_into_parts(input: &str, part_size: usize) -> (r: Vec<String>)
    requires
        part_size > 0,
        parts_fit(input@, part_size as nat),
    ensures
        texts_of(r@) == parts_of(input@, part_size as nat),
{
    let ghost n = part_size as nat;
    let mut parts: Vec<String> = Vec::new();
    let mut rest: &str = input;
    while !rest.is_empty()
        invariant
            part_size > 0,
            n == part_size as nat,
            parts_fit(rest@, n),
            parts_of(input@, n) == texts_of(parts@) + parts_of(rest@, n),
        decreases rest@.len(),
    {
        let len = rest.as_bytes().len();
        let cut = if part_size < len { part_size } else { len };
        proof {
            assert(rest@.len() > 0);
            assert(len == rest.spec_bytes().len());
            assert(rest.spec_bytes() == encode_utf8(rest@));
            assert(cut == head_len(rest@, n));
            assert(is_char_boundary(rest.spec_bytes(), cut as int));
        }
        let (head, _) = rest.split_at(cut);
        proof {
            encode_utf8_decode_utf8(head@);
            assert(head.spec_bytes() =~= encode_utf8(rest@).take(cut as int));
            assert(head@ == head_part(rest@, n));
        }
        let owned = head.to_owned();
        let ghost before = parts@;
        parts.push(owned);
        let count = rest.unicode_len();
        let step = if part_size < count { part_size } else { count };
        let ghost old_rest = rest@;
        rest = rest.substring_char(step, count);
        proof {
            assert(rest@ =~= old_rest.skip(step_len(old_rest, n) as int));
            assert(texts_of(parts@) =~= texts_of(before).push(head_part(old_rest, n)));
            assert(texts_of(before) + parts_of(old_rest, n) =~= texts_of(parts@) + parts_of(rest@, n));
        }
    }
    proof {
        assert(texts_of(parts@) + parts_of(rest@, n) =~= texts_of(parts@));
    }
    parts
}

/// The parts a stored string is cut into: parts of `STRING_PART_SIZE` bytes.
pub fn string_parts(s: &str) -> (r: Vec<String>)
    requires
        parts_fit(s@, STRING_PART_SIZE as nat),
    ensures
        texts_of(r@) == parts_of(s@, STRING_PART_SIZE as nat),
{
    split_str_into_parts(s, STRING_PART_SIZE)
}

/// The text of some bytes where invalid UTF-8 is replaced.
pub uninterp spec fn lossy_text(bytes: Seq<u8>) -> Seq<char>;

/// Calls `String::from_utf8_lossy` and takes the owned string.
/// Claimed: the text depends on the bytes alone, and for valid UTF-8 it is
/// the text the bytes encode (the documentation: invalid sequences are
/// replaced, valid ones are kept). What replaces invalid sequences is not stated.
#[verifier::external_body]
fn utf8_lossy(bytes: &[u8]) -> (r: String)
    ensures
        r@ == lossy_text(bytes@),
        valid_utf8(bytes@) ==> r@ == decode_utf8(bytes@),
{
    String::from_utf8_lossy(bytes).into_owned()
}

/// The bytes of some parts, one after another.
pub open spec fn views_of(parts: Seq<Vec<u8>>) -> Seq<Seq<u8>> {
    parts.map_values(|p: Vec<u8>| p@)
}

/// Joins the bytes of the parts and reads them as text, replacing invalid UTF-8.
pub fn string_from_parts(parts: &Vec<Vec<u8>>) -> (r: String)
    ensures
        r@ == lossy_text(views_of(parts@).flatten()),
        valid_utf8(views_of(parts@).flatten()) ==> r@ == decode_utf8(views_of(parts@).flatten()),
{
    let mut all: Vec<u8> = Vec::new();
    let mut i: usize = 0;
    while i < parts.len()
        invariant
            i <= parts.len(),
            all@ == views_of(parts@.take(i as int)).flatten(),
        decreases parts.len() - i,
    {
        let part = &parts[i];
        let mut j: usize = 0;
        let ghost start = all@;
        while j < part.len()
            invariant
                j <= part.len(),
                all@ == start + part@.take(j as int),
            decreases part.len() - j,
        {
            all.push(part[j]);
            j = j + 1;
            proof {
                assert(all@ =~= start + part@.take(j as int));
            }
        }
        proof {
            let before = views_of(parts@.take(i as int));
            assert(views_of(parts@.take(i + 1)) =~= before + seq![part@]);
            vstd::seq_lib::lemma_flatten_concat(before, seq![part@]);
            seq![part@].lemma_flatten_one_element();
            assert(part@.take(part.len() as int) =~= part@);
        }
        i = i + 1;
    }
    proof {
        assert(parts@.take(parts.len() as int) =~= parts@);
    }
    utf8_lossy(all.as_slice())
}

/// The bytes of some texts, one after another.
pub open spec fn encodings_of(texts: Seq<Seq<char>>) -> Seq<Seq<u8>> {
    texts.map_values(|t: Seq<char>| encode_utf8(t))
}

/// An ASCII string is cut into parts that fit, each holding one to `n` chars,
/// all but the last exactly `n`, and the parts joined give the string back, as
/// text and as bytes.
pub proof fn lemma_ascii_parts_rejoin(s: Seq<char>, n: nat)
    requires
        n > 0,
        is_ascii_chars(s),
    ensures
        parts_fit(s, n),
        parts_of(s, n).flatten() == s,
        encodings_of(parts_of(s, n)).flatten() == encode_utf8(s),
        forall|i: int| 0 <= i < parts_of(s, n).len() ==> 0 < #[trigger] parts_of(s, n)[i].len() <= n,
        forall|i: int| 0 <= i < parts_of(s, n).len() - 1 ==> #[trigger] parts_of(s, n)[i].len() == n,
    decreases s.len(),
{
    if s.len() > 0 {
        let m = step_len(s, n);
        let head = s.take(m as int);
        let tail = s.skip(m as int);
        assert(s =~= head + tail);
        vstd::utf8::is_ascii_chars_encode_utf8(s);
        assert(is_ascii_chars(head));
        assert(is_ascii_chars(tail));
        vstd::utf8::is_ascii_chars_encode_utf8(head);
        assert(head_len(s, n) == m);
        assert(encode_utf8(s).take(m as int) =~= encode_utf8(head));
        encode_utf8_decode_utf8(head);
        assert(head_part(s, n) == head);
        encode_utf8_valid_utf8(s);
        if m < s.len() {
            let b = encode_utf8(s)[m as int];
            assert(b == s[m as int] as u8);
            assert(b < 128);
            is_char_boundary_iff_not_is_continuation_byte(encode_utf8(s), m as int);
        } else {
            is_char_boundary_start_end_of_seq(encode_utf8(s));
        }
        lemma_ascii_parts_rejoin(tail, n);
        lemma_encode_concat(head, tail);
        let rest = parts_of(tail, n);
        assert(parts_of(s, n) =~= seq![head] + rest);
        vstd::seq_lib::lemma_flatten_concat(seq![head], rest);
        seq![head].lemma_flatten_one_element();
        assert(encodings_of(parts_of(s, n)) =~= seq![encode_utf8(head)] + encodings_of(rest));
        vstd::seq_lib::lemma_flatten_concat(seq![encode_utf8(head)], encodings_of(rest));
        seq![encode_utf8(head)].lemma_flatten_one_element();
        assert forall|i: int| 0 <= i < parts_of(s, n).len() - 1 implies #[trigger] parts_of(s, n)[i].len() == n by {
            if i > 0 {
                assert(parts_of(s, n)[i] == rest[i - 1]);
            } else {
                if rest.len() > 0 {
                    assert(tail.len() > 0);
                }
            }
        }
        assert forall|i: int| 0 <= i < parts_of(s, n).len() implies 0 < #[trigger] parts_of(s, n)[i].len() <= n by {
            if i > 0 {
                assert(parts_of(s, n)[i] == rest[i - 1]);
            }
        }
    }
}

/// The encoding of two texts one after the other is their encodings one after the other.
pub proof fn lemma_encode_concat(a: Seq<char>, b: Seq<char>)
    ensures
        encode_utf8(a + b) == encode_utf8(a) + encode_utf8(b),
    decreases a.len(),
{
    if a.len() > 0 {
        assert((a + b).drop_first() =~= a.drop_first() + b);
        assert((a + b)[0] == a[0]);
        lemma_encode_concat(a.drop_first(), b);
        assert(encode_utf8(a + b) =~= encode_utf8(a) + encode_utf8(b));
    } else {
        assert(a + b =~= b);
        assert(encode_utf8(a) + encode_utf8(b) =~= encode_utf8(b));
    }
}

/// An ASCII string cut into parts and joined back from the parts' bytes is the string.
pub proof fn lemma_ascii_string_round_trip(s: Seq<char>, parts: Seq<Vec<u8>>)
    requires
        is_ascii_chars(s),
        views_of(parts) == encodings_of(parts_of(s, STRING_PART_SIZE as nat)),
    ensures
        valid_utf8(views_of(parts).flatten()),
        decode_utf8(views_of(parts).flatten()) == s,
{
    lemma_ascii_parts_rejoin(s, STRING_PART_SIZE as nat);
    encode_utf8_valid_utf8(s);
    encode_utf8_decode_utf8(s);
}

/// Every char takes at least one byte.
pub proof fn lemma_chars_within_bytes(s: Seq<char>)
    ensures
        s.len() <= encode_utf8(s).len(),
    decreases s.len(),
{
    if s.len() > 0 {
        lemma_chars_within_bytes(s.drop_first());
        let c = s[0] as u32;
        assert(encode_scalar(c).len() >= 1) by {
            if has_width_1_encoding(c) {
            } else if has_width_2_encoding(c) {
            } else if has_width_3_encoding(c) {
            } else {
            }
        }
        assert(encode_utf8(s) == encode_scalar(c) + encode_utf8(s.drop_first()));
    }
}

/// A string whose bytes fit in one part is cut into that one part, and the
/// part's bytes, joined back, give the string.
pub proof fn lemma_short_string_is_one_part(s: Seq<char>, n: nat)
    requires
        0 < s.len(),
        encode_utf8(s).len() <= n,
    ensures
        parts_fit(s, n),
        parts_of(s, n) == seq![s],
        encodings_of(parts_of(s, n)).flatten() == encode_utf8(s),
{
    lemma_chars_within_bytes(s);
    encode_utf8_valid_utf8(s);
    is_char_boundary_start_end_of_seq(encode_utf8(s));
    assert(encode_utf8(s).take(encode_utf8(s).len() as int) =~= encode_utf8(s));
    encode_utf8_decode_utf8(s);
    assert(head_len(s, n) == encode_utf8(s).len());
    assert(head_part(s, n) == s);
    assert(step_len(s, n) == s.len());
    let rest = s.skip(step_len(s, n) as int);
    assert(rest.len() == 0);
    assert(parts_of(rest, n) == Seq::<Seq<char>>::empty());
    assert(parts_fit(rest, n));
    assert(parts_of(s, n) =~= seq![s]);
    assert(encodings_of(parts_of(s, n)) =~= seq![encode_utf8(s)]);
    seq![encode_utf8(s)].lemma_flatten_one_element();
}

/// A string whose bytes fit in one stored part, cut and joined back from the
/// parts' bytes, is the string.
pub proof fn lemma_short_string_round_trip(s: Seq<char>, parts: Seq<Vec<u8>>)
    requires
        0 < s.len(),
        encode_utf8(s).len() <= STRING_PART_SIZE,
        views_of(parts) == encodings_of(parts_of(s, STRING_PART_SIZE as nat)),
    ensures
        valid_utf8(views_of(parts).flatten()),
        decode_utf8(views_of(parts).flatten()) == s,
{
    lemma_short_string_is_one_part(s, STRING_PART_SIZE as nat);
    encode_utf8_valid_utf8(s);
    encode_utf8_decode_utf8(s);
}

} // verus!
