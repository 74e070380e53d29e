//! The on-disk record format: a deterministic, self-delimiting binary
//! encoding for queue items and completion identifiers. Streams are plain
//! concatenations of records, so the three log files need no external index.

use vstd::prelude::*;
use vstd::bytes::*;
use vstd::utf8::*;
use vstd::slice::{slice_subrange, slice_to_vec};

use crate::models::{ItemModel, Priority, QueueItem, Tags};

verus! {

/// Whether a length fits the 64-bit length prefixes of this format.
pub open spec fn fits_u64(n: nat) -> bool {
    n < 0x1_0000_0000_0000_0000
}

// ---------------------------------------------------------------------------
// Fixed-width integers, little endian
// ---------------------------------------------------------------------------

pub open spec fn enc_u64(n: u64) -> Seq<u8> {
    spec_u64_to_le_bytes(n)
}

pub open spec fn dec_u64(b: Seq<u8>, i: int) -> Option<(u64, int)> {
    if 0 <= i && i + 8 <= b.len() {
        Some((spec_u64_from_le_bytes(b.subrange(i, i + 8)), i + 8))
    } else {
        None
    }
}

pub open spec fn enc_u128(n: u128) -> Seq<u8> {
    spec_u128_to_le_bytes(n)
}

pub open spec fn dec_u128(b: Seq<u8>, i: int) -> Option<(u128, int)> {
    if 0 <= i && i + 16 <= b.len() {
        Some((spec_u128_from_le_bytes(b.subrange(i, i + 16)), i + 16))
    } else {
        None
    }
}

pub proof fn lemma_dec_enc_u64(b: Seq<u8>, i: int, n: u64)
    requires
        0 <= i,
        i + 8 <= b.len(),
        b.subrange(i, i + 8) == enc_u64(n),
    ensures
        dec_u64(b, i) == Some((n, i + 8)),
{
    lemma_auto_spec_u64_to_from_le_bytes();
}

pub proof fn lemma_dec_enc_u128(b: Seq<u8>, i: int, n: u128)
    requires
        0 <= i,
        i + 16 <= b.len(),
        b.subrange(i, i + 16) == enc_u128(n),
    ensures
        dec_u128(b, i) == Some((n, i + 16)),
{
    lemma_auto_spec_u128_to_from_le_bytes();
    assert(spec_u128_to_le_bytes(n).len() == 16);
    assert(spec_u128_from_le_bytes(spec_u128_to_le_bytes(n)) == n);
}

pub fn write_u64(out: &mut Vec<u8>, n: u64)
    ensures
        final(out)@ == old(out)@ + enc_u64(n),
{
    let b = u64_to_le_bytes(n);
    out.extend_from_slice(b.as_slice());
}

pub fn write_u128(out: &mut Vec<u8>, n: u128)
    ensures
        final(out)@ == old(out)@ + enc_u128(n),
{
    let b = u128_to_le_bytes(n);
    out.extend_from_slice(b.as_slice());
}

pub fn read_u64(bytes: &Vec<u8>, i: usize) -> (r: Option<(u64, usize)>)
    ensures
        match r {
            Some((n, j)) => dec_u64(bytes@, i as int) == Some((n, j as int)),
            None => dec_u64(bytes@, i as int) is None,
        },
{
    if i <= bytes.len() && bytes.len() - i >= 8 {
        let sl = slice_subrange(bytes.as_slice(), i, i + 8);
        let n = u64_from_le_bytes(sl);
        Some((n, i + 8))
    } else {
        None
    }
}

pub fn read_u128(bytes: &Vec<u8>, i: usize) -> (r: Option<(u128, usize)>)
    ensures
        match r {
            Some((n, j)) => dec_u128(bytes@, i as int) == Some((n, j as int)),
            None => dec_u128(bytes@, i as int) is None,
        },
{
    if i <= bytes.len() && bytes.len() - i >= 16 {
        let sl = slice_subrange(bytes.as_slice(), i, i + 16);
        let n = u128_from_le_bytes(sl);
        Some((n, i + 16))
    } else {
        None
    }
}

// ---------------------------------------------------------------------------
// Length-prefixed byte strings
// ---------------------------------------------------------------------------

pub open spec fn enc_bytes(d: Seq<u8>) -> Seq<u8> {
    enc_u64(d.len() as u64) + d
}

pub open spec fn dec_bytes(b: Seq<u8>, i: int) -> Option<(Seq<u8>, int)> {
    match dec_u64(b, i) {
        None => None,
        Some((n, j)) => if j + n <= b.len() {
            Some((b.subrange(j, j + n), j + n))
        } else {
            None
        },
    }
}

pub proof fn lemma_dec_enc_bytes(b: Seq<u8>, i: int, d: Seq<u8>)
    requires
        0 <= i,
        fits_u64(d.len()),
        i + enc_bytes(d).len() <= b.len(),
        b.subrange(i, i + enc_bytes(d).len()) == enc_bytes(d),
    ensures
        dec_bytes(b, i) == Some((d, i + 8 + d.len())),
{
    lemma_auto_spec_u64_to_from_le_bytes();
    let e = enc_bytes(d);
    assert(e.len() == 8 + d.len());
    assert(b.subrange(i, i + 8) =~= enc_u64(d.len() as u64)) by {
        assert forall|k: int| 0 <= k < 8 implies #[trigger] b.subrange(i, i + 8)[k] == enc_u64(
            d.len() as u64,
        )[k] by {
            assert(b.subrange(i, i + e.len())[k] == e[k]);
        }
    }
    lemma_dec_enc_u64(b, i, d.len() as u64);
    assert(b.subrange(i + 8, i + 8 + d.len()) =~= d) by {
        assert forall|k: int| 0 <= k < d.len() implies #[trigger] b.subrange(
            i + 8,
            i + 8 + d.len(),
        )[k] == d[k] by {
            assert(b.subrange(i, i + e.len())[k + 8] == e[k + 8]);
        }
    }
}

pub fn write_bytes(out: &mut Vec<u8>, d: &Vec<u8>)
    ensures
        final(out)@ == old(out)@ + enc_bytes(d@),
        fits_u64(d@.len()),
{
    write_u64(out, d.len() as u64);
    out.extend_from_slice(d.as_slice());
    proof {
        assert(out@ =~= old(out)@ + enc_bytes(d@));
    }
}

pub fn read_bytes(bytes: &Vec<u8>, i: usize) -> (r: Option<(Vec<u8>, usize)>)
    ensures
        match r {
            Some((v, j)) => dec_bytes(bytes@, i as int) == Some((v@, j as int)),
            None => dec_bytes(bytes@, i as int) is None,
        },
{
    match read_u64(bytes, i) {
        None => None,
        Some((n, j)) => {
            if n <= (bytes.len() - j) as u64 {
                let end = j + n as usize;
                let sl = slice_subrange(bytes.as_slice(), j, end);
                let v = slice_to_vec(sl);
                Some((v, end))
            } else {
                None
            }
        },
    }
}

// ---------------------------------------------------------------------------
// Strings, as length-prefixed UTF-8
// ---------------------------------------------------------------------------

pub open spec fn enc_str(s: Seq<char>) -> Seq<u8> {
    enc_bytes(encode_utf8(s))
}

pub open spec fn dec_str(b: Seq<u8>, i: int) -> Option<(Seq<char>, int)> {
    match dec_bytes(b, i) {
        None => None,
        Some((bs, j)) => if valid_utf8(bs) {
            Some((decode_utf8(bs), j))
        } else {
            None
        },
    }
}

pub proof fn lemma_dec_enc_str(b: Seq<u8>, i: int, s: Seq<char>)
    requires
        0 <= i,
        fits_u64(encode_utf8(s).len()),
        i + enc_str(s).len() <= b.len(),
        b.subrange(i, i + enc_str(s).len()) == enc_str(s),
    ensures
        dec_str(b, i) == Some((s, i + enc_str(s).len())),
{
    lemma_auto_spec_u64_to_from_le_bytes();
    lemma_dec_enc_bytes(b, i, encode_utf8(s));
    encode_utf8_valid_utf8(s);
    encode_utf8_decode_utf8(s);
    assert(enc_str(s).len() == 8 + encode_utf8(s).len());
}

/// Relies on String::from_utf8: it succeeds exactly on valid UTF-8 input and
/// returns the string whose UTF-8 encoding is that input.
#[verifier::external_body]
fn string_from_utf8(v: Vec<u8>) -> (r: Option<String>)
    ensures
        r matches Some(s) ==> encode_utf8(s@) == v@,
        valid_utf8(v@) ==> r is Some,
{
    String::from_utf8(v).ok()
}

pub fn write_str(out: &mut Vec<u8>, s: &String)
    ensures
        final(out)@ == old(out)@ + enc_str(s@),
        fits_u64(encode_utf8(s@).len()),
{
    let bs = s.as_str().as_bytes();
    write_u64(out, bs.len() as u64);
    out.extend_from_slice(bs);
    proof {
        assert(out@ =~= old(out)@ + enc_str(s@));
    }
}

pub fn read_str(bytes: &Vec<u8>, i: usize) -> (r: Option<(String, usize)>)
    ensures
        match r {
            Some((s, j)) => dec_str(bytes@, i as int) == Some((s@, j as int)),
            None => dec_str(bytes@, i as int) is None,
        },
{
    match read_bytes(bytes, i) {
        None => None,
        Some((v, j)) => {
            let ghost bs = v@;
            match string_from_utf8(v) {
                None => {
                    proof {
                        if valid_utf8(bs) {
                            assert(false);
                        }
                    }
                    None
                },
                Some(s) => {
                    proof {
                        encode_utf8_valid_utf8(s@);
                        encode_utf8_decode_utf8(s@);
                    }
                    Some((s, j))
                },
            }
        },
    }
}

// ---------------------------------------------------------------------------
// Lists of strings
// ---------------------------------------------------------------------------

pub open spec fn enc_str_list(l: Seq<Seq<char>>) -> Seq<u8>
    decreases l.len(),
{
    if l.len() == 0 {
        Seq::empty()
    } else {
        enc_str(l[0]) + enc_str_list(l.drop_first())
    }
}

pub open spec fn dec_str_list(b: Seq<u8>, i: int, n: nat) -> Option<(Seq<Seq<char>>, int)>
    decreases n,
{
    if n == 0 {
        Some((Seq::empty(), i))
    } else {
        match dec_str(b, i) {
            None => None,
            Some((s, j)) => match dec_str_list(b, j, (n - 1) as nat) {
                None => None,
                Some((l, k)) => Some((seq![s] + l, k)),
            },
        }
    }
}

/// Whether every string of the list fits the length prefix.
pub open spec fn str_list_bounded(l: Seq<Seq<char>>) -> bool {
    forall|k: int| 0 <= k < l.len() ==> fits_u64(encode_utf8(#[trigger] l[k]).len())
}

pub proof fn lemma_enc_str_list_snoc(l: Seq<Seq<char>>, s: Seq<char>)
    ensures
        enc_str_list(l.push(s)) == enc_str_list(l) + enc_str(s),
    decreases l.len(),
{
    if l.len() == 0 {
        assert(l.push(s).drop_first() =~= l);
        assert(enc_str_list(l.push(s)) =~= enc_str_list(l) + enc_str(s));
    } else {
        assert(l.push(s).drop_first() =~= l.drop_first().push(s));
        lemma_enc_str_list_snoc(l.drop_first(), s);
        assert(enc_str_list(l.push(s)) == enc_str(l[0]) + enc_str_list(
            l.drop_first().push(s),
        ));
        assert(enc_str_list(l.push(s)) =~= enc_str_list(l) + enc_str(s));
    }
}

pub proof fn lemma_dec_enc_str_list(b: Seq<u8>, i: int, l: Seq<Seq<char>>)
    requires
        0 <= i,
        str_list_bounded(l),
        i + enc_str_list(l).len() <= b.len(),
        b.subrange(i, i + enc_str_list(l).len()) == enc_str_list(l),
    ensures
        dec_str_list(b, i, l.len()) == Some((l, i + enc_str_list(l).len())),
    decreases l.len(),
{
    if l.len() == 0 {
        assert(dec_str_list(b, i, 0) == Some((Seq::<Seq<char>>::empty(), i)));
        assert(l =~= Seq::<Seq<char>>::empty());
    } else {
        let e = enc_str_list(l);
        let e0 = enc_str(l[0]);
        let erest = enc_str_list(l.drop_first());
        assert(e == e0 + erest);
        assert(b.subrange(i, i + e0.len()) =~= e0) by {
            assert forall|k: int| 0 <= k < e0.len() implies #[trigger] b.subrange(
                i,
                i + e0.len(),
            )[k] == e0[k] by {
                assert(b.subrange(i, i + e.len())[k] == e[k]);
            }
        }
        lemma_dec_enc_str(b, i, l[0]);
        let j = i + e0.len();
        assert(b.subrange(j, j + erest.len()) =~= erest) by {
            assert forall|k: int| 0 <= k < erest.len() implies #[trigger] b.subrange(
                j,
                j + erest.len(),
            )[k] == erest[k] by {
                assert(b.subrange(i, i + e.len())[k + e0.len()] == e[k + e0.len()]);
            }
        }
        lemma_dec_enc_str_list(b, j, l.drop_first());
        assert(seq![l[0]] + l.drop_first() =~= l);
    }
}

// ---------------------------------------------------------------------------
// Queue item records
// ---------------------------------------------------------------------------

pub open spec fn prio_byte(p: Priority) -> u8 {
    if p is High {
        1
    } else {
        0
    }
}

pub open spec fn enc_item(m: ItemModel) -> Seq<u8> {
    enc_u128(m.id) + seq![prio_byte(m.priority)] + enc_bytes(m.data) + enc_u64(
        m.tags.len() as u64,
    ) + enc_str_list(m.tags)
}

/// Whether an item's fields fit the format's length prefixes. Every item
/// built from executable values does.
pub open spec fn item_bounded(m: ItemModel) -> bool {
    &&& fits_u64(m.data.len())
    &&& fits_u64(m.tags.len())
    &&& str_list_bounded(m.tags)
}

pub open spec fn dec_item(b: Seq<u8>, i: int) -> Option<(ItemModel, int)> {
    match dec_u128(b, i) {
        None => None,
        Some((id, i1)) => if i1 < b.len() && (b[i1] == 0u8 || b[i1] == 1u8) {
            let priority = if b[i1] == 1u8 {
                Priority::High
            } else {
                Priority::Low
            };
            match dec_bytes(b, i1 + 1) {
                None => None,
                Some((data, i3)) => match dec_u64(b, i3) {
                    None => None,
                    Some((cnt, i4)) => match dec_str_list(b, i4, cnt as nat) {
                        None => None,
                        Some((tags, i5)) => Some(
                            (ItemModel { data, tags, id, priority }, i5),
                        ),
                    },
                },
            }
        } else {
            None
        },
    }
}

pub proof fn lemma_dec_enc_item(b: Seq<u8>, i: int, m: ItemModel)
    requires
        0 <= i,
        item_bounded(m),
        i + enc_item(m).len() <= b.len(),
        b.subrange(i, i + enc_item(m).len()) == enc_item(m),
    ensures
        dec_item(b, i) == Some((m, i + enc_item(m).len())),
{
    lemma_auto_spec_u64_to_from_le_bytes();
    lemma_auto_spec_u128_to_from_le_bytes();
    let e = enc_item(m);
    let p1 = enc_u128(m.id);
    let p2 = seq![prio_byte(m.priority)];
    let p3 = enc_bytes(m.data);
    let p4 = enc_u64(m.tags.len() as u64);
    let p5 = enc_str_list(m.tags);
    assert(e == p1 + p2 + p3 + p4 + p5);
    let i1 = i + 16;
    let i2 = i1 + 1;
    let i3 = i2 + p3.len();
    let i4 = i3 + 8;
    assert forall|k: int| 0 <= k < e.len() implies #[trigger] b[i + k] == e[k] by {
        assert(b.subrange(i, i + e.len())[k] == e[k]);
    }
    assert(b.subrange(i, i1) =~= p1);
    lemma_dec_enc_u128(b, i, m.id);
    assert(b[i1] == prio_byte(m.priority));
    assert(b.subrange(i2, i3) =~= p3) by {
        assert forall|k: int| 0 <= k < p3.len() implies #[trigger] b.subrange(i2, i3)[k] == p3[k] by {
            assert(b[i2 + k] == e[17 + k]);
        }
    }
    lemma_dec_enc_bytes(b, i2, m.data);
    assert(b.subrange(i3, i4) =~= p4) by {
        assert forall|k: int| 0 <= k < 8 implies #[trigger] b.subrange(i3, i4)[k] == p4[k] by {
            assert(b[i3 + k] == e[17 + p3.len() + k]);
        }
    }
    lemma_dec_enc_u64(b, i3, m.tags.len() as u64);
    assert(b.subrange(i4, i4 + p5.len()) =~= p5) by {
        assert forall|k: int| 0 <= k < p5.len() implies #[trigger] b.subrange(
            i4,
            i4 + p5.len(),
        )[k] == p5[k] by {
            assert(b[i4 + k] == e[17 + p3.len() + 8 + k]);
        }
    }
    lemma_dec_enc_str_list(b, i4, m.tags);
    assert(dec_item(b, i) == Some((m, i + e.len())));
}

pub fn encode_item(item: &QueueItem, out: &mut Vec<u8>)
    ensures
        final(out)@ == old(out)@ + enc_item(item@),
        item_bounded(item@),
{
    write_u128(out, item.id);
    let pb: u8 = match item.priority {
        Priority::High => 1,
        Priority::Low => 0,
    };
    out.push(pb);
    write_bytes(out, &item.data);
    let tags = item.required_tags.tag_strings();
    write_u64(out, tags.len() as u64);
    let ghost l = item@.tags;
    let ghost base = out@;
    let mut k: usize = 0;
    while k < tags.len()
        invariant
            k <= tags@.len(),
            l == tags@.map_values(|s: String| s@),
            out@ == base + enc_str_list(l.take(k as int)),
            forall|t: int| 0 <= t < k ==> fits_u64(encode_utf8(#[trigger] l[t]).len()),
        decreases tags@.len() - k,
    {
        write_str(out, &tags[k]);
        proof {
            assert(l[k as int] == tags@[k as int]@);
            assert(l.take(k as int).push(l[k as int]) =~= l.take(k + 1));
            lemma_enc_str_list_snoc(l.take(k as int), l[k as int]);
        }
        k = k + 1;
    }
    proof {
        assert(l.take(l.len() as int) =~= l);
        assert(out@ =~= old(out)@ + enc_item(item@));
    }
}

/// Encodes one item as a fresh record.
pub fn encode_item_vec(item: &QueueItem) -> (r: Vec<u8>)
    ensures
        r@ == enc_item(item@),
        item_bounded(item@),
{
    let mut out: Vec<u8> = Vec::new();
    encode_item(item, &mut out);
    out
}

pub proof fn lemma_dec_str_list_advance(b: Seq<u8>, i: int, n: nat)
    requires
        0 <= i <= b.len(),
    ensures
        dec_str_list(b, i, n) matches Some((l, k)) ==> i <= k <= b.len() && l.len() == n,
    decreases n,
{
    if n != 0 {
        match dec_str(b, i) {
            None => {},
            Some((s, j)) => {
                assert(i <= j <= b.len());
                lemma_dec_str_list_advance(b, j, (n - 1) as nat);
            },
        }
    }
}

pub proof fn lemma_dec_item_advance(b: Seq<u8>, i: int)
    ensures
        dec_item(b, i) matches Some((m, j)) ==> i + 17 <= j <= b.len(),
{
    match dec_u128(b, i) {
        None => {},
        Some((id, i1)) => {
            if i1 < b.len() && (b[i1] == 0u8 || b[i1] == 1u8) {
                match dec_bytes(b, i1 + 1) {
                    None => {},
                    Some((data, i3)) => {
                        match dec_u64(b, i3) {
                            None => {},
                            Some((cnt, i4)) => {
                                lemma_dec_str_list_advance(b, i4, cnt as nat);
                            },
                        }
                    },
                }
            }
        },
    }
}

/// Decodes one item record starting at offset `i`.
#[verifier::loop_isolation(false)]
pub fn read_item(bytes: &Vec<u8>, i: usize) -> (r: Option<(QueueItem, usize)>)
    ensures
        match r {
            Some((item, j)) => dec_item(bytes@, i as int) == Some((item@, j as int)) && i < j
                <= bytes@.len(),
            None => dec_item(bytes@, i as int) is None,
        },
{
    proof {
        lemma_dec_item_advance(bytes@, i as int);
    }
    let (id, i1) = match read_u128(bytes, i) {
        None => {
            return None;
        },
        Some(p) => p,
    };
    if !(i1 < bytes.len()) {
        return None;
    }
    let pb = bytes[i1];
    if !(pb == 0 || pb == 1) {
        return None;
    }
    let priority = if pb == 1 {
        Priority::High
    } else {
        Priority::Low
    };
    let (data, i3) = match read_bytes(bytes, i1 + 1) {
        None => {
            return None;
        },
        Some(p) => p,
    };
    let (cnt, i4) = match read_u64(bytes, i3) {
        None => {
            return None;
        },
        Some(p) => p,
    };
    let ghost gcnt = cnt as nat;
    let mut tag_vec: Vec<String> = Vec::new();
    let mut k: u64 = 0;
    let mut pos: usize = i4;
    while k < cnt
        invariant
            k <= cnt,
            pos <= bytes@.len(),
            tag_vec@.len() == k,
            match dec_str_list(bytes@, pos as int, (cnt - k) as nat) {
                None => dec_str_list(bytes@, i4 as int, gcnt) is None,
                Some((l, e)) => dec_str_list(bytes@, i4 as int, gcnt) == Some(
                    (tag_vec@.map_values(|s: String| s@) + l, e),
                ),
            },
        decreases cnt - k,
    {
        let ghost pre_tags = tag_vec@;
        match read_str(bytes, pos) {
            None => {
                proof {
                    assert(dec_str_list(bytes@, pos as int, (cnt - k) as nat) is None);
                    assert(dec_item(bytes@, i as int) is None);
                }
                return None;
            },
            Some((s, j)) => {
                proof {
                    lemma_dec_str_list_advance(bytes@, j as int, (cnt - k - 1) as nat);
                    assert(dec_str_list(bytes@, pos as int, (cnt - k) as nat) == match
                        dec_str_list(bytes@, j as int, (cnt - k - 1) as nat) {
                        None => None::<(Seq<Seq<char>>, int)>,
                        Some((l, e)) => Some((seq![s@] + l, e)),
                    });
                }
                tag_vec.push(s);
                proof {
                    assert(tag_vec@.map_values(|t: String| t@) =~= pre_tags.map_values(
                        |t: String| t@,
                    ).push(s@));
                    assert forall|l: Seq<Seq<char>>|
                        pre_tags.map_values(|t: String| t@) + (seq![s@] + l) =~= tag_vec@
                        .map_values(|t: String| t@) + l by {}
                }
                pos = j;
            },
        }
        k = k + 1;
    }
    proof {
        assert(dec_str_list(bytes@, pos as int, 0) == Some(
            (Seq::<Seq<char>>::empty(), pos as int),
        ));
        assert(tag_vec@.map_values(|s: String| s@) + Seq::<Seq<char>>::empty() =~= tag_vec@
            .map_values(|s: String| s@));
    }
    let tags = Tags::from_tag_strings(tag_vec);
    let item = QueueItem { data, required_tags: tags, id, priority };
    proof {
        lemma_dec_item_advance(bytes@, i as int);
    }
    Some((item, pos))
}

// ---------------------------------------------------------------------------
// Record streams: plain concatenations of records
// ---------------------------------------------------------------------------

pub open spec fn enc_stream(l: Seq<ItemModel>) -> Seq<u8>
    decreases l.len(),
{
    if l.len() == 0 {
        Seq::empty()
    } else {
        enc_item(l[0]) + enc_stream(l.drop_first())
    }
}

pub open spec fn stream_bounded(l: Seq<ItemModel>) -> bool {
    forall|k: int| 0 <= k < l.len() ==> item_bounded(#[trigger] l[k])
}

pub proof fn lemma_enc_stream_snoc(l: Seq<ItemModel>, m: ItemModel)
    ensures
        enc_stream(l.push(m)) == enc_stream(l) + enc_item(m),
    decreases l.len(),
{
    if l.len() == 0 {
        assert(l.push(m).drop_first() =~= l);
        assert(enc_stream(l.push(m)) =~= enc_stream(l) + enc_item(m));
    } else {
        assert(l.push(m).drop_first() =~= l.drop_first().push(m));
        lemma_enc_stream_snoc(l.drop_first(), m);
        assert(enc_stream(l.push(m)) =~= enc_stream(l) + enc_item(m));
    }
}

/// The items read off a byte stream, in order, stopping at the first
/// position that does not start a record.
pub open spec fn dec_stream(b: Seq<u8>, i: int) -> Seq<ItemModel>
    decreases b.len() - i,
{
    if 0 <= i <= b.len() {
        match dec_item(b, i) {
            None => Seq::empty(),
            Some((m, j)) => if i < j <= b.len() {
                seq![m] + dec_stream(b, j)
            } else {
                Seq::empty()
            },
        }
    } else {
        Seq::empty()
    }
}

/// A well-formed stream decodes to exactly the items that were encoded.
pub proof fn lemma_dec_stream_suffix(b: Seq<u8>, i: int, l: Seq<ItemModel>)
    requires
        0 <= i <= b.len(),
        stream_bounded(l),
        b.subrange(i, b.len() as int) == enc_stream(l),
    ensures
        dec_stream(b, i) == l,
    decreases l.len(),
{
    if l.len() == 0 {
        assert(b.len() - i == 0);
        if dec_item(b, i) is Some {
            lemma_dec_item_advance(b, i);
        }
        assert(dec_stream(b, i) =~= l);
    } else {
        let e0 = enc_item(l[0]);
        let erest = enc_stream(l.drop_first());
        assert(b.subrange(i, b.len() as int).len() == e0.len() + erest.len());
        assert(b.subrange(i, i + e0.len()) =~= e0) by {
            assert forall|k: int| 0 <= k < e0.len() implies #[trigger] b.subrange(
                i,
                i + e0.len(),
            )[k] == e0[k] by {
                assert(b.subrange(i, b.len() as int)[k] == (e0 + erest)[k]);
            }
        }
        lemma_dec_enc_item(b, i, l[0]);
        let j = i + e0.len();
        assert(b.subrange(j, b.len() as int) =~= erest) by {
            assert forall|k: int| 0 <= k < erest.len() implies #[trigger] b.subrange(
                j,
                b.len() as int,
            )[k] == erest[k] by {
                assert(b.subrange(i, b.len() as int)[k + e0.len()] == (e0 + erest)[k
                    + e0.len()]);
            }
        }
        lemma_dec_item_advance(b, i);
        lemma_dec_stream_suffix(b, j, l.drop_first());
        assert(dec_stream(b, i) =~= l);
    }
}

pub proof fn lemma_dec_enc_stream(l: Seq<ItemModel>)
    requires
        stream_bounded(l),
    ensures
        dec_stream(enc_stream(l), 0) == l,
{
    let b = enc_stream(l);
    assert(b.subrange(0, b.len() as int) =~= b);
    lemma_dec_stream_suffix(b, 0, l);
}

/// Decodes a whole byte stream of item records.
pub fn read_items(bytes: &Vec<u8>) -> (r: Vec<QueueItem>)
    ensures
        r@.map_values(|it: QueueItem| it@) == dec_stream(bytes@, 0),
{
    let mut out: Vec<QueueItem> = Vec::new();
    let mut i: usize = 0;
    while i <= bytes.len()
        invariant
            i <= bytes@.len() || out@.len() == 0,
            out@.map_values(|it: QueueItem| it@) + dec_stream(bytes@, i as int) == dec_stream(
                bytes@,
                0,
            ),
        decreases bytes@.len() - i + 1,
    {
        let ghost pre = out@;
        match read_item(bytes, i) {
            None => {
                proof {
                    assert(dec_stream(bytes@, i as int) =~= Seq::<ItemModel>::empty());
                    assert(out@.map_values(|it: QueueItem| it@) + Seq::<
                        ItemModel,
                    >::empty() =~= out@.map_values(|it: QueueItem| it@));
                }
                return out;
            },
            Some((item, j)) => {
                proof {
                    assert(dec_stream(bytes@, i as int) == seq![item@] + dec_stream(
                        bytes@,
                        j as int,
                    ));
                }
                out.push(item);
                proof {
                    assert(out@.map_values(|it: QueueItem| it@) =~= pre.map_values(
                        |it: QueueItem| it@,
                    ).push(item@));
                    assert(pre.map_values(|it: QueueItem| it@) + (seq![item@] + dec_stream(
                        bytes@,
                        j as int,
                    )) =~= out@.map_values(|it: QueueItem| it@) + dec_stream(
                        bytes@,
                        j as int,
                    ));
                }
                i = j;
            },
        }
    }
    proof {
        assert(dec_stream(bytes@, i as int) =~= Seq::<ItemModel>::empty());
        assert(out@.map_values(|it: QueueItem| it@) + Seq::<ItemModel>::empty() =~= out@
            .map_values(|it: QueueItem| it@));
    }
    out
}

// ---------------------------------------------------------------------------
// Identifier streams, for the completion log
// ---------------------------------------------------------------------------

pub open spec fn enc_id_stream(l: Seq<u128>) -> Seq<u8>
    decreases l.len(),
{
    if l.len() == 0 {
        Seq::empty()
    } else {
        enc_u128(l[0]) + enc_id_stream(l.drop_first())
    }
}

pub proof fn lemma_enc_id_stream_snoc(l: Seq<u128>, n: u128)
    ensures
        enc_id_stream(l.push(n)) == enc_id_stream(l) + enc_u128(n),
    decreases l.len(),
{
    if l.len() == 0 {
        assert(l.push(n).drop_first() =~= l);
        assert(enc_id_stream(l.push(n)) =~= enc_id_stream(l) + enc_u128(n));
    } else {
        assert(l.push(n).drop_first() =~= l.drop_first().push(n));
        lemma_enc_id_stream_snoc(l.drop_first(), n);
        assert(enc_id_stream(l.push(n)) =~= enc_id_stream(l) + enc_u128(n));
    }
}

pub open spec fn dec_id_stream(b: Seq<u8>, i: int) -> Seq<u128>
    decreases b.len() - i,
{
    if 0 <= i <= b.len() {
        match dec_u128(b, i) {
            None => Seq::empty(),
            Some((n, j)) => if i < j <= b.len() {
                seq![n] + dec_id_stream(b, j)
            } else {
                Seq::empty()
            },
        }
    } else {
        Seq::empty()
    }
}

pub proof fn lemma_dec_id_stream_suffix(b: Seq<u8>, i: int, l: Seq<u128>)
    requires
        0 <= i <= b.len(),
        b.subrange(i, b.len() as int) == enc_id_stream(l),
    ensures
        dec_id_stream(b, i) == l,
    decreases l.len(),
{
    lemma_auto_spec_u128_to_from_le_bytes();
    if l.len() == 0 {
        assert(enc_id_stream(l) =~= Seq::<u8>::empty());
        assert(b.subrange(i, b.len() as int).len() == 0);
        assert(b.len() - i == 0);
        assert(dec_id_stream(b, i) =~= l);
    } else {
        let e0 = enc_u128(l[0]);
        assert(e0.len() == 16);
        let erest = enc_id_stream(l.drop_first());
        assert(b.subrange(i, b.len() as int).len() == e0.len() + erest.len());
        assert(b.subrange(i, i + 16) =~= e0) by {
            assert forall|k: int| 0 <= k < 16 implies #[trigger] b.subrange(
                i,
                i + 16,
            )[k] == e0[k] by {
                assert(b.subrange(i, b.len() as int)[k] == (e0 + erest)[k]);
            }
        }
        lemma_dec_enc_u128(b, i, l[0]);
        let j = i + 16;
        assert(b.subrange(j, b.len() as int) =~= erest) by {
            assert forall|k: int| 0 <= k < erest.len() implies #[trigger] b.subrange(
                j,
                b.len() as int,
            )[k] == erest[k] by {
                assert(b.subrange(i, b.len() as int)[k + 16] == (e0 + erest)[k + 16]);
            }
        }
        lemma_dec_id_stream_suffix(b, j, l.drop_first());
        assert(dec_id_stream(b, i) =~= l);
    }
}

pub proof fn lemma_dec_enc_id_stream(l: Seq<u128>)
    ensures
        dec_id_stream(enc_id_stream(l), 0) == l,
{
    let b = enc_id_stream(l);
    assert(b.subrange(0, b.len() as int) =~= b);
    lemma_dec_id_stream_suffix(b, 0, l);
}

/// Decodes a whole byte stream of identifier records.
pub fn read_ids(bytes: &Vec<u8>) -> (r: Vec<u128>)
    ensures
        r@ == dec_id_stream(bytes@, 0),
{
    let mut out: Vec<u128> = Vec::new();
    let mut i: usize = 0;
    while i <= bytes.len()
        invariant
            i <= bytes@.len() || out@.len() == 0,
            out@ + dec_id_stream(bytes@, i as int) == dec_id_stream(bytes@, 0),
        decreases bytes@.len() - i + 1,
    {
        let ghost pre = out@;
        match read_u128(bytes, i) {
            None => {
                proof {
                    assert(dec_id_stream(bytes@, i as int) =~= Seq::<u128>::empty());
                    assert(out@ + Seq::<u128>::empty() =~= out@);
                }
                return out;
            },
            Some((n, j)) => {
                proof {
                    assert(dec_id_stream(bytes@, i as int) == seq![n] + dec_id_stream(
                        bytes@,
                        j as int,
                    ));
                }
                out.push(n);
                proof {
                    assert(pre + (seq![n] + dec_id_stream(bytes@, j as int)) =~= out@
                        + dec_id_stream(bytes@, j as int));
                }
                i = j;
            },
        }
    }
    proof {
        assert(dec_id_stream(bytes@, i as int) =~= Seq::<u128>::empty());
        assert(out@ + Seq::<u128>::empty() =~= out@);
    }
    out
}

} // verus!
