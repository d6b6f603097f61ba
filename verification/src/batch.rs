//! Reading the output of `git cat-file --batch` and `git cat-file --batch-check`.
use vstd::prelude::*;
use vstd::utf8::{decode_utf8, encode_scalar, encode_utf8, is_scalar, valid_utf8};
use crate::decode::{decimal_value, is_digit, lossy_string, lossy_utf8, parse_usize, usize_from_str, utf8_str};
use crate::authorship::key_index_from;
use crate::text::{is_ws, pairs_view, split_whitespace, ws_split_acc, ws_tokens};

verus! {

/// Why `git cat-file --batch` output could not be read.
#[derive(PartialEq, Eq, Structural, Debug, Clone, Copy)]
pub enum CatFileError {
    /// A header line is not valid UTF-8.
    InvalidHeader,
    /// The size field of a header is not a decimal `usize`.
    InvalidSize,
    /// An object's content runs past the end of the output.
    TruncatedContent,
}

/// Sets `key` to `value`: in place where `key` is present, appended otherwise
/// (so keys stay distinct and a later value replaces an earlier one).
pub open spec fn upsert(v: Seq<(Seq<char>, Seq<char>)>, key: Seq<char>, value: Seq<char>) -> Seq<
    (Seq<char>, Seq<char>),
> {
    let i = key_index_from(v, key, 0);
    if i >= 0 {
        v.update(i, (key, value))
    } else {
        v.push((key, value))
    }
}

/// The first index `i >= from` holding a newline byte, or -1.
pub open spec fn newline_from(data: Seq<u8>, from: int) -> int
    decreases data.len() - from,
{
    if from < 0 || from >= data.len() {
        -1
    } else if data[from] == 10 {
        from
    } else {
        newline_from(data, from + 1)
    }
}

pub proof fn lemma_newline_from(data: Seq<u8>, from: int)
    ensures
        newline_from(data, from) >= 0 ==> from <= newline_from(data, from) < data.len()
            && data[newline_from(data, from)] == 10,
    decreases data.len() - from,
{
    if 0 <= from < data.len() && data[from] != 10 {
        lemma_newline_from(data, from + 1);
    }
}

pub open spec fn missing_word() -> Seq<char> {
    seq!['m', 'i', 's', 's', 'i', 'n', 'g']
}

/// Reads `git cat-file --batch` output from byte `pos` on, adding each object
/// to `acc` (keyed by its object id, content decoded lossily).
///
/// Each object is a header line `<oid> <type> <size>` followed by `size` bytes
/// of content and a newline. Header lines with fewer than three fields, or
/// reporting a `missing` object, are skipped; reading stops at a position with
/// no further newline.
pub open spec fn cat_file_parse(data: Seq<u8>, pos: int, acc: Seq<(Seq<char>, Seq<char>)>) -> Result<
    Seq<(Seq<char>, Seq<char>)>,
    CatFileError,
>
    decreases data.len() - pos,
{
    if pos < 0 || pos >= data.len() {
        Ok(acc)
    } else {
        let h = newline_from(data, pos);
        proof {
            lemma_newline_from(data, pos);
        }
        if h < 0 {
            Ok(acc)
        } else {
            let header = data.subrange(pos, h);
            if !valid_utf8(header) {
                Err(CatFileError::InvalidHeader)
            } else {
                let parts = ws_tokens(decode_utf8(header));
                if parts.len() < 2 || parts[1] == missing_word() || parts.len() < 3 {
                    cat_file_parse(data, h + 1, acc)
                } else {
                    match usize_from_str(parts[2]) {
                        None => Err(CatFileError::InvalidSize),
                        Some(size) => {
                            let cs = h + 1;
                            let ce = cs + size;
                            if ce > data.len() {
                                Err(CatFileError::TruncatedContent)
                            } else {
                                let next = if ce < data.len() && data[ce] == 10 {
                                    ce + 1
                                } else {
                                    ce
                                };
                                cat_file_parse(
                                    data,
                                    next,
                                    upsert(acc, parts[0], lossy_utf8(data.subrange(cs, ce))),
                                )
                            }
                        },
                    }
                }
            }
        }
    }
}

fn find_newline(data: &[u8], from: usize) -> (r: Option<usize>)
    requires
        from <= data.len(),
    ensures
        newline_from(data@, from as int) >= 0 ==> r == Some(newline_from(data@, from as int) as usize),
        newline_from(data@, from as int) < 0 ==> r is None,
{
    let mut i = from;
    while i < data.len()
        invariant
            from <= i <= data.len(),
            newline_from(data@, from as int) == newline_from(data@, i as int),
        decreases data.len() - i,
    {
        if data[i] == 10 {
            return Some(i);
        }
        i = i + 1;
    }
    None
}

fn is_missing_word(t: &String) -> (r: bool)
    ensures
        r == (t@ == missing_word()),
{
    let v = crate::text::chars_of(t.as_str());
    if v.len() != 7 {
        return false;
    }
    let r = v[0] == 'm' && v[1] == 'i' && v[2] == 's' && v[3] == 's' && v[4] == 'i' && v[5] == 'n'
        && v[6] == 'g';
    assert(r ==> v@ =~= missing_word());
    r
}

/// Sets `key` to `value` in `v`.
pub fn upsert_pair(v: &mut Vec<(String, String)>, key: String, value: String)
    ensures
        pairs_view(final(v)@) == upsert(pairs_view(old(v)@), key@, value@),
{
    let ghost pv = pairs_view(v@);
    let ghost kv = key@;
    let ghost vv = value@;
    let mut i: usize = 0;
    while i < v.len()
        invariant
            i <= v.len(),
            pv == pairs_view(v@),
            pv == pairs_view(old(v)@),
            kv == key@,
            vv == value@,
            key_index_from(pv, key@, 0) == key_index_from(pv, key@, i as int),
        decreases v.len() - i,
    {
        if v[i].0 == key {
            assert(pv[i as int].0 == kv);
            v.set(i, (key, value));
            assert(pairs_view(v@) =~= upsert(pv, kv, vv));
            return;
        }
        i = i + 1;
    }
    v.push((key, value));
    assert(pairs_view(v@) =~= upsert(pv, key@, value@));
}

/// Reads the output of `git cat-file --batch` into `(object id, content)`
/// pairs, one per object id (a later object replaces an earlier one with the
/// same id). Content is decoded lossily. See `cat_file_parse` for the format.
pub fn parse_cat_file_batch_output_with_oids(data: &[u8]) -> (r: Result<
    Vec<(String, String)>,
    CatFileError,
>)
    ensures
        match cat_file_parse(data@, 0, Seq::empty()) {
            Ok(m) => r matches Ok(v) && pairs_view(v@) == m,
            Err(e) => r == Err::<Vec<(String, String)>, CatFileError>(e),
        },
{
    let mut results: Vec<(String, String)> = Vec::new();
    let mut pos: usize = 0;
    assert(pairs_view(results@) =~= Seq::empty());
    while pos < data.len()
        invariant
            pos <= data.len(),
            cat_file_parse(data@, 0, Seq::empty()) == cat_file_parse(
                data@,
                pos as int,
                pairs_view(results@),
            ),
        ensures
            cat_file_parse(data@, 0, Seq::empty()) == Ok::<
                Seq<(Seq<char>, Seq<char>)>,
                CatFileError,
            >(pairs_view(results@)),
        decreases data.len() - pos,
    {
        proof {
            lemma_newline_from(data@, pos as int);
        }
        let header_end = match find_newline(data, pos) {
            Some(h) => h,
            None => {
                break ;
            },
        };
        let header = match utf8_str(&data[pos..header_end]) {
            Some(h) => h,
            None => {
                return Err(CatFileError::InvalidHeader);
            },
        };
        let parts = split_whitespace(header);
        if parts.len() < 2 {
            pos = header_end + 1;
            continue ;
        }
        if is_missing_word(&parts[1]) {
            pos = header_end + 1;
            continue ;
        }
        if parts.len() < 3 {
            pos = header_end + 1;
            continue ;
        }
        let size = match parse_usize(parts[2].as_str()) {
            Some(s) => s,
            None => {
                return Err(CatFileError::InvalidSize);
            },
        };
        let content_start = header_end + 1;
        if size > data.len() - content_start {
            return Err(CatFileError::TruncatedContent);
        }
        let content_end = content_start + size;
        let content = lossy_string(&data[content_start..content_end]);
        let oid = parts[0].clone();
        upsert_pair(&mut results, oid, content);
        pos = content_end;
        if pos < data.len() && data[pos] == 10 {
            pos = pos + 1;
        }
    }
    Ok(results)
}


// ---------------------------------------------------------------------------
// Laws.
/// No key occurs twice.
pub open spec fn keys_distinct<V>(v: Seq<(Seq<char>, V)>) -> bool {
    forall|a: int, b: int| 0 <= a < b < v.len() ==> #[trigger] v[a].0 != #[trigger] v[b].0
}

/// Setting a key keeps keys distinct, holds the new value for the key, and
/// leaves every other key's value alone.
pub proof fn law_upsert(v: Seq<(Seq<char>, Seq<char>)>, key: Seq<char>, value: Seq<char>)
    requires
        keys_distinct(v),
    ensures
        keys_distinct(upsert(v, key, value)),
        upsert(v, key, value).contains((key, value)),
        forall|i: int| 0 <= i < v.len() && v[i].0 != key ==> upsert(v, key, value).contains(#[trigger] v[i]),
{
    crate::authorship::lemma_key_index_bounds(v, key, 0);
    if key_index_from(v, key, 0) < 0 {
        crate::authorship::lemma_key_index_absent(v, key, 0);
    }
    let r = upsert(v, key, value);
    let i = key_index_from(v, key, 0);
    if i >= 0 {
        assert(r[i] == (key, value));
        assert forall|j: int| 0 <= j < v.len() && v[j].0 != key implies r.contains(#[trigger] v[j]) by {
            assert(r[j] == v[j]);
        }
    } else {
        assert(r[v.len() as int] == (key, value));
        assert forall|j: int| 0 <= j < v.len() && v[j].0 != key implies r.contains(#[trigger] v[j]) by {
            assert(r[j] == v[j]);
        }
    }
}

/// The objects read from `git cat-file --batch` output have distinct ids.
pub proof fn law_cat_file_ids_distinct(data: Seq<u8>, pos: int, acc: Seq<(Seq<char>, Seq<char>)>)
    requires
        keys_distinct(acc),
    ensures
        cat_file_parse(data, pos, acc) matches Ok(m) ==> keys_distinct(m),
    decreases data.len() - pos,
{
    if 0 <= pos < data.len() {
        let h = newline_from(data, pos);
        lemma_newline_from(data, pos);
        if h >= 0 {
            let header = data.subrange(pos, h);
            if valid_utf8(header) {
                let parts = ws_tokens(decode_utf8(header));
                if parts.len() < 2 || parts[1] == missing_word() || parts.len() < 3 {
                    law_cat_file_ids_distinct(data, h + 1, acc);
                } else {
                    match usize_from_str(parts[2]) {
                        Some(size) => {
                            let cs = h + 1;
                            let ce = cs + size;
                            if ce <= data.len() {
                                let next = if ce < data.len() && data[ce] == 10 {
                                    ce + 1
                                } else {
                                    ce
                                };
                                let v = lossy_utf8(data.subrange(cs, ce));
                                law_upsert(acc, parts[0], v);
                                law_cat_file_ids_distinct(data, next, upsert(acc, parts[0], v));
                            }
                        },
                        None => {},
                    }
                }
            }
        }
    }
}

// ---------------------------------------------------------------------------
// Reading back what git writes.
/// The decimal digit for `k` (below ten).
pub open spec fn digit_char(k: nat) -> char {
    if k == 0 {
        '0'
    } else if k == 1 {
        '1'
    } else if k == 2 {
        '2'
    } else if k == 3 {
        '3'
    } else if k == 4 {
        '4'
    } else if k == 5 {
        '5'
    } else if k == 6 {
        '6'
    } else if k == 7 {
        '7'
    } else if k == 8 {
        '8'
    } else {
        '9'
    }
}

/// The decimal digits of `n`, as characters.
pub open spec fn decimal_chars(n: nat) -> Seq<char>
    decreases n,
{
    if n < 10 {
        seq![digit_char(n)]
    } else {
        decimal_chars(n / 10).push(digit_char(n % 10))
    }
}

pub open spec fn blob_type_word() -> Seq<char> {
    seq!['b', 'l', 'o', 'b']
}

/// The header line `<oid> blob <size>` of a blob in `git cat-file --batch`
/// output, without its newline.
pub open spec fn cat_file_header(oid: Seq<char>, size: nat) -> Seq<char> {
    oid + seq![' '] + blob_type_word() + seq![' '] + decimal_chars(size)
}

/// One blob as `git cat-file --batch` prints it: the header line, the content,
/// and a newline.
pub open spec fn cat_file_record(oid: Seq<char>, content: Seq<u8>) -> Seq<u8> {
    encode_utf8(cat_file_header(oid, content.len())) + seq![10u8] + content + seq![10u8]
}

/// The output of `git cat-file --batch` for the blobs `items` (object id,
/// content), in order.
pub open spec fn cat_file_output(items: Seq<(Seq<char>, Seq<u8>)>) -> Seq<u8>
    decreases items.len(),
{
    if items.len() == 0 {
        Seq::empty()
    } else {
        cat_file_record(items[0].0, items[0].1) + cat_file_output(items.drop_first())
    }
}

/// `acc` with each blob of `items`, in order, set to its lossily decoded content.
pub open spec fn read_blobs(items: Seq<(Seq<char>, Seq<u8>)>, acc: Seq<(Seq<char>, Seq<char>)>) -> Seq<
    (Seq<char>, Seq<char>),
>
    decreases items.len(),
{
    if items.len() == 0 {
        acc
    } else {
        read_blobs(items.drop_first(), upsert(acc, items[0].0, lossy_utf8(items[0].1)))
    }
}

/// An object id as git prints it: non-empty, without whitespace.
pub open spec fn plain_oid(oid: Seq<char>) -> bool {
    oid.len() > 0 && forall|i: int| 0 <= i < oid.len() ==> !is_ws(#[trigger] oid[i])
}

/// Blobs that git can print: plain object ids, sizes that fit in `usize`.
pub open spec fn printable_blobs(items: Seq<(Seq<char>, Seq<u8>)>) -> bool {
    forall|i: int|
        0 <= i < items.len() ==> plain_oid(#[trigger] items[i].0) && items[i].1.len() <= usize::MAX
}

proof fn lemma_decimal_chars(n: nat)
    ensures
        decimal_chars(n).len() > 0,
        forall|i: int| 0 <= i < decimal_chars(n).len() ==> is_digit(#[trigger] decimal_chars(n)[i]),
        decimal_value(decimal_chars(n)) == n,
    decreases n,
{
    assert(digit_char(n % 10) as nat - '0' as nat == n % 10);
    if n < 10 {
        let d = decimal_chars(n);
        assert(d.drop_last() =~= Seq::<char>::empty());
        assert(n % 10 == n);
        assert(decimal_value(d.drop_last()) == 0);
        assert(decimal_value(d) == n);
    }
    if n >= 10 {
        lemma_decimal_chars(n / 10);
        let d = decimal_chars(n);
        assert(d.drop_last() =~= decimal_chars(n / 10));
        assert(d.last() == digit_char(n % 10));
        assert(n == 10 * (n / 10) + n % 10) by (nonlinear_arith);
        assert(decimal_value(d) == 10 * decimal_value(d.drop_last()) + (d.last() as nat - '0' as nat) as nat);
        assert(decimal_value(d.drop_last()) == n / 10);
        assert((d.last() as nat - '0' as nat) as nat == n % 10);
        assert(decimal_value(d) == n);
        assert forall|i: int| 0 <= i < d.len() implies is_digit(#[trigger] d[i]) by {
            if i < d.len() - 1 {
                assert(d[i] == decimal_chars(n / 10)[i]);
            }
        }
    }
}

proof fn lemma_scalar_not_newline(v: u32)
    requires
        is_scalar(v),
        v != 10,
    ensures
        forall|i: int| 0 <= i < encode_scalar(v).len() ==> #[trigger] encode_scalar(v)[i] != 10,
{
    assert(v <= 0x7F && v != 10 ==> (v & 0x7F) as u8 != 10u8) by (bit_vector);
    assert(0xC0u8 | ((v >> 6) & 0x1F) as u8 != 10u8) by (bit_vector);
    assert(0xE0u8 | ((v >> 12) & 0x0F) as u8 != 10u8) by (bit_vector);
    assert(0xF0u8 | ((v >> 18) & 0x7) as u8 != 10u8) by (bit_vector);
    assert(0x80u8 | (v & 0x3F) as u8 != 10u8) by (bit_vector);
    assert(0x80u8 | ((v >> 6) & 0x3F) as u8 != 10u8) by (bit_vector);
    assert(0x80u8 | ((v >> 12) & 0x3F) as u8 != 10u8) by (bit_vector);
}

proof fn lemma_encode_not_newline(c: Seq<char>)
    requires
        forall|i: int| 0 <= i < c.len() ==> #[trigger] c[i] != '\n',
    ensures
        forall|i: int| 0 <= i < encode_utf8(c).len() ==> #[trigger] encode_utf8(c)[i] != 10,
    decreases c.len(),
{
    if c.len() > 0 {
        let rest = c.drop_first();
        assert forall|i: int| 0 <= i < rest.len() implies #[trigger] rest[i] != '\n' by {
            assert(rest[i] == c[i + 1]);
        }
        lemma_encode_not_newline(rest);
        vstd::utf8::char_is_scalar(c[0]);
        assert(c[0] != '\n');
        if (c[0] as u32) == 10 {
            vstd::utf8::char_u32_cast(c[0], 10u32);
            vstd::utf8::char_u32_cast('\n', 10u32);
        }
        lemma_scalar_not_newline(c[0] as u32);
        let e = encode_scalar(c[0] as u32);
        let whole = encode_utf8(c);
        assert(whole == e + encode_utf8(rest));
        assert forall|i: int| 0 <= i < whole.len() implies #[trigger] whole[i] != 10 by {
            if i < e.len() {
                assert(whole[i] == e[i]);
            } else {
                assert(whole[i] == encode_utf8(rest)[i - e.len()]);
            }
        }
    }
}

proof fn lemma_newline_at(data: Seq<u8>, from: int, at: int)
    requires
        0 <= from <= at < data.len(),
        data[at] == 10,
        forall|i: int| from <= i < at ==> data[i] != 10,
    ensures
        newline_from(data, from) == at,
    decreases at - from,
{
    if from < at {
        assert(data[from] != 10);
        lemma_newline_at(data, from + 1, at);
    }
}

proof fn lemma_ws_split_word(s: Seq<char>, t: Seq<char>)
    requires
        forall|i: int| 0 <= i < t.len() ==> !is_ws(#[trigger] t[i]),
    ensures
        ws_split_acc(s + t) == (ws_split_acc(s).0, ws_split_acc(s).1 + t),
    decreases t.len(),
{
    if t.len() == 0 {
        assert(s + t =~= s);
        assert(ws_split_acc(s).1 + t =~= ws_split_acc(s).1);
    } else {
        let t0 = t.drop_last();
        assert forall|i: int| 0 <= i < t0.len() implies !is_ws(#[trigger] t0[i]) by {
            assert(t0[i] == t[i]);
        }
        lemma_ws_split_word(s, t0);
        assert((s + t).drop_last() =~= s + t0);
        assert((s + t).last() == t.last());
        assert(!is_ws(t[t.len() - 1]));
        assert((ws_split_acc(s).1 + t0).push(t.last()) =~= ws_split_acc(s).1 + t);
    }
}

proof fn lemma_ws_split_space(s: Seq<char>)
    ensures
        ws_split_acc(s + seq![' ']) == (if ws_split_acc(s).1.len() > 0 {
            (ws_split_acc(s).0.push(ws_split_acc(s).1), Seq::<char>::empty())
        } else {
            (ws_split_acc(s).0, Seq::<char>::empty())
        }),
{
    assert((s + seq![' ']).drop_last() =~= s);
    assert((s + seq![' ']).last() == ' ');
}

proof fn lemma_header_tokens(oid: Seq<char>, size: nat)
    requires
        plain_oid(oid),
    ensures
        ws_tokens(cat_file_header(oid, size)) == seq![oid, blob_type_word(), decimal_chars(size)],
{
    lemma_decimal_chars(size);
    let d = decimal_chars(size);
    let b = blob_type_word();
    let e = Seq::<char>::empty();
    assert forall|i: int| 0 <= i < d.len() implies !is_ws(#[trigger] d[i]) by {
        assert(is_digit(d[i]));
    }
    assert forall|i: int| 0 <= i < b.len() implies !is_ws(#[trigger] b[i]) by {}
    lemma_ws_split_word(e, oid);
    assert(e + oid =~= oid);
    assert(ws_split_acc(e) == (Seq::<Seq<char>>::empty(), e));
    assert(ws_split_acc(oid) == (Seq::<Seq<char>>::empty(), oid));
    let s1 = oid + seq![' '];
    lemma_ws_split_space(oid);
    assert(ws_split_acc(s1) == (seq![oid], e));
    lemma_ws_split_word(s1, b);
    assert(e + b =~= b);
    let s2 = s1 + b;
    lemma_ws_split_space(s2);
    let s3 = s2 + seq![' '];
    assert(ws_split_acc(s3) == (seq![oid, b], e));
    lemma_ws_split_word(s3, d);
    assert(e + d =~= d);
    assert(cat_file_header(oid, size) =~= s3 + d);
}

proof fn lemma_read_record(
    data: Seq<u8>,
    pos: int,
    oid: Seq<char>,
    content: Seq<u8>,
    acc: Seq<(Seq<char>, Seq<char>)>,
)
    requires
        0 <= pos,
        pos + cat_file_record(oid, content).len() <= data.len(),
        data.subrange(pos, pos + cat_file_record(oid, content).len()) == cat_file_record(oid, content),
        plain_oid(oid),
        content.len() <= usize::MAX,
    ensures
        cat_file_parse(data, pos, acc) == cat_file_parse(
            data,
            pos + cat_file_record(oid, content).len(),
            upsert(acc, oid, lossy_utf8(content)),
        ),
{
    let rec = cat_file_record(oid, content);
    let hc = cat_file_header(oid, content.len());
    let hb = encode_utf8(hc);
    let d = decimal_chars(content.len());
    lemma_decimal_chars(content.len());
    assert forall|i: int| 0 <= i < hc.len() implies #[trigger] hc[i] != '\n' by {
        if i < oid.len() {
            assert(hc[i] == oid[i]);
            assert(!is_ws(oid[i]));
        } else if i >= oid.len() + 6 {
            assert(hc[i] == d[i - oid.len() - 6]);
            assert(is_digit(d[i - oid.len() - 6]));
        }
    }
    lemma_encode_not_newline(hc);
    let h = pos + hb.len();
    assert forall|i: int| pos <= i < h implies data[i] != 10 by {
        assert(data[i] == data.subrange(pos, pos + rec.len())[i - pos]);
        assert(rec[i - pos] == hb[i - pos]);
    }
    assert(data[h] == data.subrange(pos, pos + rec.len())[hb.len() as int]);
    assert(data[h] == 10);
    lemma_newline_at(data, pos, h);
    assert(data.subrange(pos, h) =~= hb);
    vstd::utf8::encode_utf8_valid_utf8(hc);
    vstd::utf8::encode_utf8_decode_utf8(hc);
    lemma_header_tokens(oid, content.len());
    let parts = ws_tokens(hc);
    assert(parts[0] == oid);
    assert(parts[1].len() == 4);
    assert(parts[1] != missing_word());
    assert(parts[2] == d);
    assert(crate::decode::all_digits(d));
    assert(d[0] != '+') by {
        assert(is_digit(d[0]));
    }
    assert(usize_from_str(parts[2]) == Some(content.len()));
    let cs = h + 1;
    let ce = cs + content.len();
    assert(data.subrange(cs, ce) =~= content) by {
        assert forall|i: int| 0 <= i < content.len() implies data.subrange(cs, ce)[i] == content[i] by {
            assert(data[cs + i] == data.subrange(pos, pos + rec.len())[hb.len() + 1 + i]);
        }
    }
    assert(data[ce] == data.subrange(pos, pos + rec.len())[(hb.len() + 1 + content.len()) as int]);
    assert(ce + 1 == pos + rec.len());
}

proof fn lemma_read_records(
    data: Seq<u8>,
    pos: int,
    items: Seq<(Seq<char>, Seq<u8>)>,
    acc: Seq<(Seq<char>, Seq<char>)>,
)
    requires
        0 <= pos <= data.len(),
        data.subrange(pos, data.len() as int) == cat_file_output(items),
        printable_blobs(items),
    ensures
        cat_file_parse(data, pos, acc) == Ok::<Seq<(Seq<char>, Seq<char>)>, CatFileError>(
            read_blobs(items, acc),
        ),
    decreases items.len(),
{
    if items.len() == 0 {
        assert(data.subrange(pos, data.len() as int).len() == 0);
    } else {
        let rec = cat_file_record(items[0].0, items[0].1);
        let rest = items.drop_first();
        let tail = data.subrange(pos, data.len() as int);
        assert(tail == rec + cat_file_output(rest));
        assert(data.subrange(pos, pos + rec.len()) =~= rec) by {
            assert forall|i: int| 0 <= i < rec.len() implies data.subrange(pos, pos + rec.len())[i]
                == rec[i] by {
                assert(tail[i] == rec[i]);
            }
        }
        assert(plain_oid(items[0].0));
        lemma_read_record(data, pos, items[0].0, items[0].1, acc);
        assert(data.subrange(pos + rec.len(), data.len() as int) =~= cat_file_output(rest)) by {
            assert forall|i: int| 0 <= i < cat_file_output(rest).len() implies data.subrange(
                pos + rec.len(),
                data.len() as int,
            )[i] == cat_file_output(rest)[i] by {
                assert(tail[rec.len() + i] == cat_file_output(rest)[i]);
            }
        }
        assert forall|i: int| 0 <= i < rest.len() implies plain_oid(#[trigger] rest[i].0)
            && rest[i].1.len() <= usize::MAX by {
            assert(rest[i] == items[i + 1]);
        }
        lemma_read_records(data, pos + rec.len(), rest, upsert(acc, items[0].0, lossy_utf8(items[0].1)));
    }
}

/// Reading back what `git cat-file --batch` prints for a list of blobs gives
/// each object id with the lossily decoded content of its last blob: the
/// parse of the printed output is the blobs set one after another.
pub proof fn law_cat_file_round_trip(items: Seq<(Seq<char>, Seq<u8>)>)
    requires
        printable_blobs(items),
    ensures
        cat_file_parse(cat_file_output(items), 0, Seq::empty()) == Ok::<
            Seq<(Seq<char>, Seq<char>)>,
            CatFileError,
        >(read_blobs(items, Seq::empty())),
{
    let data = cat_file_output(items);
    assert(data.subrange(0, data.len() as int) =~= data);
    lemma_read_records(data, 0, items, Seq::empty());
}

} // verus!
