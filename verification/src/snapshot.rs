//! The snapshot format: the committed chain rendered as a JSON array of
//! block records, one object per block, fields in declaration order,
//! absent hashes as `null`, quotes and backslashes escaped. The format is
//! the persisted layout of the ledger; the parser inverts the encoder.

use vstd::prelude::*;
use vstd::string::StringExecFns;

use crate::chain::{chain_wf, views_of, BlockChain, BlockV};
use crate::numeral::{dec_str, digit_val, digits_val, is_digit};

verus! {

/// One character, escaped for a quoted string.
pub open spec fn esc_char(c: char) -> Seq<char> {
    if c == '"' || c == '\\' {
        seq!['\\', c]
    } else {
        seq![c]
    }
}

/// A character sequence, escaped for a quoted string.
pub open spec fn esc(s: Seq<char>) -> Seq<char>
    decreases s.len(),
{
    if s.len() == 0 {
        Seq::<char>::empty()
    } else {
        esc_char(s[0]) + esc(s.drop_first())
    }
}

/// A quoted, escaped string.
pub open spec fn enc_str(s: Seq<char>) -> Seq<char> {
    seq!['"'] + esc(s) + seq!['"']
}

/// An optional hash: `null` or a quoted string.
pub open spec fn enc_opt(o: Option<Seq<char>>) -> Seq<char> {
    match o {
        None => "null"@,
        Some(s) => enc_str(s),
    }
}

/// One block record.
pub open spec fn enc_block(b: BlockV) -> Seq<char> {
    "{\"index\":"@ + dec_str(b.index) + ",\"timestamp\":"@ + dec_str(b.timestamp)
        + ",\"sender\":"@ + enc_str(b.sender) + ",\"receiver\":"@ + enc_str(b.receiver)
        + ",\"file_hash\":"@ + enc_str(b.file_hash) + ",\"hash\":"@ + enc_opt(b.hash)
        + ",\"prev_hash\":"@ + enc_opt(b.prev_hash) + "}"@
}

/// Comma-separated block records.
pub open spec fn enc_blocks(bs: Seq<BlockV>) -> Seq<char>
    decreases bs.len(),
{
    if bs.len() == 0 {
        Seq::<char>::empty()
    } else if bs.len() == 1 {
        enc_block(bs[0])
    } else {
        enc_block(bs[0]) + ","@ + enc_blocks(bs.drop_first())
    }
}

/// The whole snapshot: the records in chain order, bracketed.
pub open spec fn enc_chain(bs: Seq<BlockV>) -> Seq<char> {
    "["@ + enc_blocks(bs) + "]"@
}

proof fn lemma_esc_snoc(s: Seq<char>, c: char)
    ensures
        esc(s.push(c)) =~= esc(s) + esc_char(c),
    decreases s.len(),
{
    if s.len() == 0 {
        assert(s.push(c) =~= seq![c]);
        assert(seq![c][0] == c);
        assert(seq![c].drop_first() =~= Seq::<char>::empty());
        assert(esc(Seq::<char>::empty()) =~= Seq::<char>::empty());
        assert(esc(seq![c]) =~= esc_char(c) + esc(seq![c].drop_first()));
    } else {
        assert(s.push(c).drop_first() =~= s.drop_first().push(c));
        lemma_esc_snoc(s.drop_first(), c);
    }
}

proof fn lemma_enc_blocks_snoc(bs: Seq<BlockV>, b: BlockV)
    ensures
        bs.len() == 0 ==> enc_blocks(bs.push(b)) =~= enc_block(b),
        bs.len() >= 1 ==> enc_blocks(bs.push(b)) =~= enc_blocks(bs) + ","@ + enc_block(b),
    decreases bs.len(),
{
    if bs.len() == 0 {
        assert(bs.push(b)[0] == b);
    } else if bs.len() == 1 {
        assert(bs.push(b)[0] == bs[0]);
        assert(bs.push(b).drop_first() =~= seq![b]);
        assert(enc_blocks(seq![b]) == enc_block(b));
        assert(enc_blocks(bs.push(b)) =~= enc_blocks(bs) + ","@ + enc_block(b));
    } else {
        assert(bs.push(b).drop_first() =~= bs.drop_first().push(b));
        lemma_enc_blocks_snoc(bs.drop_first(), b);
        assert(enc_blocks(bs.push(b)) =~= enc_blocks(bs) + ","@ + enc_block(b));
    }
}

/// Quotes and escapes one string.
fn encode_str(s: &str) -> (r: String)
    ensures
        r@ == enc_str(s@),
{
    let mut out: String = "\"".to_owned();
    proof {
        reveal_strlit("\"");
        assert(out@ =~= seq!['"'] + esc(s@.take(0)));
    }
    let n = s.unicode_len();
    let mut i: usize = 0;
    while i < n
        invariant
            0 <= i <= n,
            n == s@.len(),
            out@ == seq!['"'] + esc(s@.take(i as int)),
        decreases n - i,
    {
        let c = s.get_char(i);
        if c == '"' {
            out.append("\\\"");
            proof {
                reveal_strlit("\\\"");
                assert("\\\""@ =~= esc_char(c));
            }
        } else if c == '\\' {
            out.append("\\\\");
            proof {
                reveal_strlit("\\\\");
                assert("\\\\"@ =~= esc_char(c));
            }
        } else {
            out.append(s.substring_char(i, i + 1));
            proof {
                assert(s@.subrange(i as int, i as int + 1) =~= seq![s@[i as int]]);
                assert(seq![s@[i as int]] =~= esc_char(c));
            }
        }
        proof {
            lemma_esc_snoc(s@.take(i as int), c);
            assert(s@.take(i as int + 1) =~= s@.take(i as int).push(c));
            assert(out@ =~= seq!['"'] + esc(s@.take(i as int + 1)));
        }
        i = i + 1;
    }
    out.append("\"");
    proof {
        reveal_strlit("\"");
        assert(s@.take(n as int) =~= s@);
        assert(out@ =~= enc_str(s@));
    }
    out
}

/// Encodes an optional hash.
fn encode_opt(o: &Option<String>) -> (r: String)
    ensures
        r@ == enc_opt(match o {
            Some(s) => Some(s@),
            None => None,
        }),
{
    match o {
        None => "null".to_owned(),
        Some(s) => encode_str(s.as_str()),
    }
}

/// Encodes one block record.
fn encode_block(b: &crate::chain::Block) -> (r: String)
    ensures
        r@ == enc_block(b@),
{
    let mut out: String = "{\"index\":".to_owned();
    out.append(crate::numeral::u128_to_dec(b.index as u128).as_str());
    out.append(",\"timestamp\":");
    out.append(crate::numeral::u128_to_dec(b.timestamp).as_str());
    out.append(",\"sender\":");
    out.append(encode_str(b.sender.as_str()).as_str());
    out.append(",\"receiver\":");
    out.append(encode_str(b.receiver.as_str()).as_str());
    out.append(",\"file_hash\":");
    out.append(encode_str(b.file_hash.as_str()).as_str());
    out.append(",\"hash\":");
    out.append(encode_opt(&b.hash).as_str());
    out.append(",\"prev_hash\":");
    out.append(encode_opt(&b.prev_hash).as_str());
    out.append("}");
    proof {
        assert(out@ =~= enc_block(b@));
    }
    out
}

/// Encodes a sequence of blocks as a snapshot.
fn encode_blocks(v: &Vec<crate::chain::Block>) -> (r: String)
    ensures
        r@ == enc_chain(views_of(v@)),
{
    let mut out: String = "[".to_owned();
    let mut i: usize = 0;
    while i < v.len()
        invariant
            0 <= i <= v@.len(),
            out@ == "["@ + enc_blocks(views_of(v@).take(i as int)),
            views_of(v@).len() == v@.len(),
        decreases v@.len() - i,
    {
        if i > 0 {
            out.append(",");
        }
        out.append(encode_block(&v[i]).as_str());
        proof {
            let bs = views_of(v@);
            assert(bs.take(i as int + 1) =~= bs.take(i as int).push(bs[i as int]));
            lemma_enc_blocks_snoc(bs.take(i as int), bs[i as int]);
            assert(bs[i as int] == v@[i as int]@);
            assert(out@ =~= "["@ + enc_blocks(bs.take(i as int + 1)));
        }
        i = i + 1;
    }
    out.append("]");
    proof {
        assert(views_of(v@).take(v@.len() as int) =~= views_of(v@));
        assert(out@ =~= enc_chain(views_of(v@)));
    }
    out
}

/// A literal at position `i`: the position after it, or nothing.
pub open spec fn p_lit(s: Seq<char>, i: int, lit: Seq<char>) -> Option<int> {
    if 0 <= i && i + lit.len() <= s.len() && s.subrange(i, i + lit.len()) == lit {
        Some(i + lit.len())
    } else {
        None
    }
}

/// The end of the digit run starting at `i`.
pub open spec fn digits_end(s: Seq<char>, i: int) -> int
    decreases s.len() - i when 0 <= i <= s.len()
{
    if i < s.len() && is_digit(s[i]) {
        digits_end(s, i + 1)
    } else {
        i
    }
}

pub proof fn lemma_digits_end_bounds(s: Seq<char>, i: int)
    requires
        0 <= i <= s.len(),
    ensures
        i <= digits_end(s, i) <= s.len(),
        digits_end(s, i) == s.len() || !is_digit(s[digits_end(s, i)]),
        forall|k: int| i <= k < digits_end(s, i) ==> is_digit(s[k]),
    decreases s.len() - i,
{
    if i < s.len() && is_digit(s[i]) {
        lemma_digits_end_bounds(s, i + 1);
    }
}

/// A numeral at position `i`, rejected when its value exceeds `max`.
pub open spec fn p_num(s: Seq<char>, i: int, max: nat) -> Option<(nat, int)> {
    let j = digits_end(s, i);
    if j > i && digits_val(s, i, j) <= max {
        Some((digits_val(s, i, j), j))
    } else {
        None
    }
}

/// A string body after its opening quote, up to the closing quote, the two
/// escapes decoded.
pub open spec fn p_str_body(s: Seq<char>, i: int) -> Option<(Seq<char>, int)>
    decreases s.len() - i when 0 <= i <= s.len()
{
    if i >= s.len() {
        None
    } else if s[i] == '"' {
        Some((Seq::<char>::empty(), i + 1))
    } else if s[i] == '\\' {
        if i + 1 < s.len() && (s[i + 1] == '"' || s[i + 1] == '\\') {
            match p_str_body(s, i + 2) {
                Some((t, j)) => Some((seq![s[i + 1]] + t, j)),
                None => None,
            }
        } else {
            None
        }
    } else {
        match p_str_body(s, i + 1) {
            Some((t, j)) => Some((seq![s[i]] + t, j)),
            None => None,
        }
    }
}

pub proof fn lemma_p_str_body_bounds(s: Seq<char>, i: int)
    requires
        0 <= i <= s.len(),
    ensures
        p_str_body(s, i) matches Some((t, j)) ==> i < j <= s.len(),
    decreases s.len() - i,
{
    if i < s.len() {
        if s[i] == '\\' {
            if i + 1 < s.len() && (s[i + 1] == '"' || s[i + 1] == '\\') {
                lemma_p_str_body_bounds(s, i + 2);
            }
        } else if s[i] != '"' {
            lemma_p_str_body_bounds(s, i + 1);
        }
    }
}

/// A quoted string at position `i`.
pub open spec fn p_qstr(s: Seq<char>, i: int) -> Option<(Seq<char>, int)> {
    if 0 <= i < s.len() && s[i] == '"' {
        p_str_body(s, i + 1)
    } else {
        None
    }
}

/// An optional hash: `null` or a quoted string.
pub open spec fn p_opt(s: Seq<char>, i: int) -> Option<(Option<Seq<char>>, int)> {
    match p_lit(s, i, "null"@) {
        Some(j) => Some((None, j)),
        None => match p_qstr(s, i) {
            Some((t, j)) => Some((Some(t), j)),
            None => None,
        },
    }
}

/// One block record at position `i`.
pub open spec fn p_block(s: Seq<char>, i: int) -> Option<(BlockV, int)> {
    match p_lit(s, i, "{\"index\":"@) {
        None => None,
        Some(i1) => match p_num(s, i1, u32::MAX as nat) {
            None => None,
            Some((idx, i2)) => match p_lit(s, i2, ",\"timestamp\":"@) {
                None => None,
                Some(i3) => match p_num(s, i3, u128::MAX as nat) {
                    None => None,
                    Some((ts, i4)) => match p_lit(s, i4, ",\"sender\":"@) {
                        None => None,
                        Some(i5) => match p_qstr(s, i5) {
                            None => None,
                            Some((snd, i6)) => match p_lit(s, i6, ",\"receiver\":"@) {
                                None => None,
                                Some(i7) => match p_qstr(s, i7) {
                                    None => None,
                                    Some((rcv, i8)) => match p_lit(s, i8, ",\"file_hash\":"@) {
                                        None => None,
                                        Some(i9) => match p_qstr(s, i9) {
                                            None => None,
                                            Some((fh, i10)) => match p_lit(s, i10, ",\"hash\":"@) {
                                                None => None,
                                                Some(i11) => match p_opt(s, i11) {
                                                    None => None,
                                                    Some((h, i12)) => match p_lit(
                                                        s,
                                                        i12,
                                                        ",\"prev_hash\":"@,
                                                    ) {
                                                        None => None,
                                                        Some(i13) => match p_opt(s, i13) {
                                                            None => None,
                                                            Some((ph, i14)) => match p_lit(
                                                                s,
                                                                i14,
                                                                "}"@,
                                                            ) {
                                                                None => None,
                                                                Some(i15) => Some(
                                                                    (
                                                                        BlockV {
                                                                            index: idx,
                                                                            timestamp: ts,
                                                                            sender: snd,
                                                                            receiver: rcv,
                                                                            file_hash: fh,
                                                                            hash: h,
                                                                            prev_hash: ph,
                                                                        },
                                                                        i15,
                                                                    ),
                                                                ),
                                                            },
                                                        },
                                                    },
                                                },
                                            },
                                        },
                                    },
                                },
                            },
                        },
                    },
                },
            },
        },
    }
}

pub proof fn lemma_p_block_bounds(s: Seq<char>, i: int)
    requires
        0 <= i <= s.len(),
    ensures
        p_block(s, i) matches Some((b, j)) ==> i < j <= s.len(),
{
    if p_block(s, i) is Some {
        let i1 = p_lit(s, i, "{\"index\":"@).unwrap();
        lemma_digits_end_bounds(s, i1);
        let i2 = p_num(s, i1, u32::MAX as nat).unwrap().1;
        let i3 = p_lit(s, i2, ",\"timestamp\":"@).unwrap();
        lemma_digits_end_bounds(s, i3);
        let i4 = p_num(s, i3, u128::MAX as nat).unwrap().1;
        let i5 = p_lit(s, i4, ",\"sender\":"@).unwrap();
        lemma_p_str_body_bounds(s, i5 + 1);
        let i6 = p_qstr(s, i5).unwrap().1;
        let i7 = p_lit(s, i6, ",\"receiver\":"@).unwrap();
        lemma_p_str_body_bounds(s, i7 + 1);
        let i8 = p_qstr(s, i7).unwrap().1;
        let i9 = p_lit(s, i8, ",\"file_hash\":"@).unwrap();
        lemma_p_str_body_bounds(s, i9 + 1);
        let i10 = p_qstr(s, i9).unwrap().1;
        let i11 = p_lit(s, i10, ",\"hash\":"@).unwrap();
        if p_lit(s, i11, "null"@) is None {
            lemma_p_str_body_bounds(s, i11 + 1);
        }
        let i12 = p_opt(s, i11).unwrap().1;
        let i13 = p_lit(s, i12, ",\"prev_hash\":"@).unwrap();
        if p_lit(s, i13, "null"@) is None {
            lemma_p_str_body_bounds(s, i13 + 1);
        }
        let i14 = p_opt(s, i13).unwrap().1;
        let i15 = p_lit(s, i14, "}"@).unwrap();
        assert(i < i2 <= i15 <= s.len());
    }
}

/// The remaining records after one block: either the closing bracket, or a
/// comma and another record, repeated.
pub open spec fn p_blocks_more(s: Seq<char>, i: int) -> Option<(Seq<BlockV>, int)>
    decreases s.len() - i when 0 <= i <= s.len() via p_blocks_more_dec
{
    match p_lit(s, i, "]"@) {
        Some(j) => Some((Seq::<BlockV>::empty(), j)),
        None => match p_lit(s, i, ","@) {
            None => None,
            Some(i1) => match p_block(s, i1) {
                None => None,
                Some((b, j)) => match p_blocks_more(s, j) {
                    None => None,
                    Some((bs, k)) => Some((seq![b] + bs, k)),
                },
            },
        },
    }
}

#[via_fn]
proof fn p_blocks_more_dec(s: Seq<char>, i: int) {
    if 0 <= i <= s.len() {
        if p_lit(s, i, "]"@) is None && p_lit(s, i, ","@) is Some {
            let i1 = p_lit(s, i, ","@).unwrap();
            lemma_p_block_bounds(s, i1);
        }
    }
}

/// A whole snapshot: a bracketed, comma-separated list of block records,
/// consuming the entire text.
pub open spec fn dec_chain(s: Seq<char>) -> Option<Seq<BlockV>> {
    match p_lit(s, 0, "["@) {
        None => None,
        Some(i1) => match p_lit(s, i1, "]"@) {
            Some(j) => if j == s.len() {
                Some(Seq::<BlockV>::empty())
            } else {
                None
            },
            None => match p_block(s, i1) {
                None => None,
                Some((b, j)) => match p_blocks_more(s, j) {
                    None => None,
                    Some((bs, k)) => if k == s.len() {
                        Some(seq![b] + bs)
                    } else {
                        None
                    },
                },
            },
        },
    }
}

fn expect_lit(s: &str, i: usize, lit: &str) -> (r: Option<usize>)
    requires
        i <= s@.len(),
    ensures
        r matches Some(j) ==> p_lit(s@, i as int, lit@) == Some(j as int),
        r is None ==> p_lit(s@, i as int, lit@) is None,
{
    let n = s.unicode_len();
    let m = lit.unicode_len();
    if m > n - i {
        return None;
    }
    let mut k: usize = 0;
    while k < m
        invariant
            0 <= k <= m,
            i + m <= n,
            n == s@.len(),
            m == lit@.len(),
            forall|t: int| 0 <= t < k ==> s@[i + t] == lit@[t],
        decreases m - k,
    {
        if s.get_char(i + k) != lit.get_char(k) {
            proof {
                assert(s@.subrange(i as int, i as int + m as int)[k as int] == s@[i as int
                    + k as int]);
            }
            return None;
        }
        k = k + 1;
    }
    proof {
        assert(s@.subrange(i as int, i as int + m as int) =~= lit@);
    }
    Some(i + m)
}

fn scan_digits(s: &str, i: usize) -> (j: usize)
    requires
        i <= s@.len(),
    ensures
        j == digits_end(s@, i as int),
        i <= j <= s@.len(),
    decreases s@.len() - i,
{
    if i < s.unicode_len() {
        let c = s.get_char(i);
        if 48 <= c as u32 && c as u32 <= 57 {
            scan_digits(s, i + 1)
        } else {
            i
        }
    } else {
        i
    }
}

proof fn lemma_digits_val_mono(s: Seq<char>, i: int, a: int, b: int)
    requires
        i <= a <= b,
    ensures
        digits_val(s, i, b) >= digits_val(s, i, a),
    decreases b - a,
{
    if a < b {
        lemma_digits_val_mono(s, i, a, b - 1);
        assert(digits_val(s, i, b) == digits_val(s, i, b - 1) * 10 + digit_val(s[b - 1]));
    }
}

fn parse_num_u128(s: &str, i: usize) -> (r: Option<(u128, usize)>)
    requires
        i <= s@.len(),
    ensures
        r matches Some((v, j)) ==> p_num(s@, i as int, u128::MAX as nat) == Some(
            (v as nat, j as int),
        ),
        r is None ==> p_num(s@, i as int, u128::MAX as nat) is None,
{
    let j = scan_digits(s, i);
    proof {
        lemma_digits_end_bounds(s@, i as int);
    }
    if j == i {
        return None;
    }
    let mut acc: u128 = 0;
    let mut k: usize = i;
    while k < j
        invariant
            i <= k <= j <= s@.len(),
            j == digits_end(s@, i as int),
            acc == digits_val(s@, i as int, k as int),
            forall|t: int| i <= t < j ==> is_digit(s@[t]),
        decreases j - k,
    {
        let c = s.get_char(k);
        let d: u128 = ((c as u32) - 48) as u128;
        let next = match acc.checked_mul(10) {
            Some(a) => a.checked_add(d),
            None => None,
        };
        match next {
            Some(v) => {
                acc = v;
            },
            None => {
                proof {
                    assert(digits_val(s@, i as int, k as int + 1) > u128::MAX);
                    lemma_digits_val_mono(s@, i as int, k as int + 1, j as int);
                }
                return None;
            },
        }
        k = k + 1;
    }
    Some((acc, j))
}

fn parse_num_u32(s: &str, i: usize) -> (r: Option<(u32, usize)>)
    requires
        i <= s@.len(),
    ensures
        r matches Some((v, j)) ==> p_num(s@, i as int, u32::MAX as nat) == Some(
            (v as nat, j as int),
        ),
        r is None ==> p_num(s@, i as int, u32::MAX as nat) is None,
{
    match parse_num_u128(s, i) {
        None => None,
        Some((v, j)) => {
            if v <= u32::MAX as u128 {
                Some((v as u32, j))
            } else {
                None
            }
        },
    }
}

fn parse_str_body(s: &str, i: usize) -> (r: Option<(String, usize)>)
    requires
        i <= s@.len(),
    ensures
        r matches Some((t, j)) ==> p_str_body(s@, i as int) == Some((t@, j as int)),
        r is None ==> p_str_body(s@, i as int) is None,
    decreases s@.len() - i,
{
    let n = s.unicode_len();
    if i >= n {
        return None;
    }
    let c = s.get_char(i);
    if c == '"' {
        let e = String::new();
        proof {
            assert(e@ =~= Seq::<char>::empty());
        }
        Some((e, i + 1))
    } else if c == '\\' {
        if i + 1 < n {
            let c2 = s.get_char(i + 1);
            if c2 == '"' || c2 == '\\' {
                match parse_str_body(s, i + 2) {
                    Some((t, j)) => {
                        let mut out = s.substring_char(i + 1, i + 2).to_owned();
                        out.append(t.as_str());
                        proof {
                            assert(s@.subrange(i as int + 1, i as int + 2) =~= seq![
                                s@[i as int + 1],
                            ]);
                            assert(out@ =~= seq![s@[i as int + 1]] + t@);
                        }
                        Some((out, j))
                    },
                    None => None,
                }
            } else {
                None
            }
        } else {
            None
        }
    } else {
        match parse_str_body(s, i + 1) {
            Some((t, j)) => {
                let mut out = s.substring_char(i, i + 1).to_owned();
                out.append(t.as_str());
                proof {
                    assert(s@.subrange(i as int, i as int + 1) =~= seq![s@[i as int]]);
                    assert(out@ =~= seq![s@[i as int]] + t@);
                }
                Some((out, j))
            },
            None => None,
        }
    }
}

fn parse_qstr(s: &str, i: usize) -> (r: Option<(String, usize)>)
    requires
        i <= s@.len(),
    ensures
        r matches Some((t, j)) ==> p_qstr(s@, i as int) == Some((t@, j as int)),
        r is None ==> p_qstr(s@, i as int) is None,
{
    if i < s.unicode_len() {
        if s.get_char(i) == '"' {
            parse_str_body(s, i + 1)
        } else {
            None
        }
    } else {
        None
    }
}

fn parse_opt(s: &str, i: usize) -> (r: Option<(Option<String>, usize)>)
    requires
        i <= s@.len(),
    ensures
        r matches Some((o, j)) ==> p_opt(s@, i as int) == Some(
            (
                match o {
                    Some(t) => Some(t@),
                    None => None,
                },
                j as int,
            ),
        ),
        r is None ==> p_opt(s@, i as int) is None,
{
    match expect_lit(s, i, "null") {
        Some(j) => Some((None, j)),
        None => match parse_qstr(s, i) {
            Some((t, j)) => Some((Some(t), j)),
            None => None,
        },
    }
}

fn parse_block(s: &str, i: usize) -> (r: Option<(crate::chain::Block, usize)>)
    requires
        i <= s@.len(),
    ensures
        r matches Some((b, j)) ==> p_block(s@, i as int) == Some((b@, j as int)) && i < j
            <= s@.len(),
        r is None ==> p_block(s@, i as int) is None,
{
    let i1 = match expect_lit(s, i, "{\"index\":") {
        Some(x) => x,
        None => {
            return None;
        },
    };
    let (idx, i2) = match parse_num_u32(s, i1) {
        Some(x) => x,
        None => {
            return None;
        },
    };
    proof {
        lemma_digits_end_bounds(s@, i1 as int);
    }
    let i3 = match expect_lit(s, i2, ",\"timestamp\":") {
        Some(x) => x,
        None => {
            return None;
        },
    };
    let (ts, i4) = match parse_num_u128(s, i3) {
        Some(x) => x,
        None => {
            return None;
        },
    };
    proof {
        lemma_digits_end_bounds(s@, i3 as int);
    }
    let i5 = match expect_lit(s, i4, ",\"sender\":") {
        Some(x) => x,
        None => {
            return None;
        },
    };
    let (snd, i6) = match parse_qstr(s, i5) {
        Some(x) => x,
        None => {
            return None;
        },
    };
    proof {
        if i5 < s@.len() {
            lemma_p_str_body_bounds(s@, i5 as int + 1);
        }
    }
    let i7 = match expect_lit(s, i6, ",\"receiver\":") {
        Some(x) => x,
        None => {
            return None;
        },
    };
    let (rcv, i8) = match parse_qstr(s, i7) {
        Some(x) => x,
        None => {
            return None;
        },
    };
    proof {
        if i7 < s@.len() {
            lemma_p_str_body_bounds(s@, i7 as int + 1);
        }
    }
    let i9 = match expect_lit(s, i8, ",\"file_hash\":") {
        Some(x) => x,
        None => {
            return None;
        },
    };
    let (fh, i10) = match parse_qstr(s, i9) {
        Some(x) => x,
        None => {
            return None;
        },
    };
    proof {
        if i9 < s@.len() {
            lemma_p_str_body_bounds(s@, i9 as int + 1);
        }
    }
    let i11 = match expect_lit(s, i10, ",\"hash\":") {
        Some(x) => x,
        None => {
            return None;
        },
    };
    let (h, i12) = match parse_opt(s, i11) {
        Some(x) => x,
        None => {
            return None;
        },
    };
    proof {
        if p_lit(s@, i11 as int, "null"@) is None && i11 < s@.len() {
            lemma_p_str_body_bounds(s@, i11 as int + 1);
        }
    }
    let i13 = match expect_lit(s, i12, ",\"prev_hash\":") {
        Some(x) => x,
        None => {
            return None;
        },
    };
    let (ph, i14) = match parse_opt(s, i13) {
        Some(x) => x,
        None => {
            return None;
        },
    };
    proof {
        if p_lit(s@, i13 as int, "null"@) is None && i13 < s@.len() {
            lemma_p_str_body_bounds(s@, i13 as int + 1);
        }
    }
    let i15 = match expect_lit(s, i14, "}") {
        Some(x) => x,
        None => {
            return None;
        },
    };
    let b = crate::chain::Block {
        index: idx,
        timestamp: ts,
        sender: snd,
        receiver: rcv,
        file_hash: fh,
        hash: h,
        prev_hash: ph,
    };
    Some((b, i15))
}

fn parse_blocks_more(s: &str, i: usize) -> (r: Option<(Vec<crate::chain::Block>, usize)>)
    requires
        i <= s@.len(),
    ensures
        r matches Some((v, j)) ==> p_blocks_more(s@, i as int) == Some(
            (views_of(v@), j as int),
        ) && j <= s@.len(),
        r is None ==> p_blocks_more(s@, i as int) is None,
    decreases s@.len() - i,
{
    if let Some(j) = expect_lit(s, i, "]") {
        let v: Vec<crate::chain::Block> = Vec::new();
        proof {
            assert(views_of(v@) =~= Seq::<BlockV>::empty());
        }
        return Some((v, j));
    }
    let i1 = match expect_lit(s, i, ",") {
        Some(x) => x,
        None => {
            return None;
        },
    };
    let (b, j) = match parse_block(s, i1) {
        Some(x) => x,
        None => {
            return None;
        },
    };
    let (mut v, k) = match parse_blocks_more(s, j) {
        Some(x) => x,
        None => {
            return None;
        },
    };
    let ghost v0 = v@;
    v.insert(0, b);
    proof {
        assert(views_of(v@) =~= seq![b@] + views_of(v0));
    }
    Some((v, k))
}

/// Parses a snapshot back into its blocks; nothing but the grammar is
/// checked here.
fn parse_chain(s: &str) -> (r: Option<Vec<crate::chain::Block>>)
    ensures
        r matches Some(v) ==> dec_chain(s@) == Some(views_of(v@)),
        r is None ==> dec_chain(s@) is None,
{
    let n = s.unicode_len();
    let i1 = match expect_lit(s, 0, "[") {
        Some(x) => x,
        None => {
            return None;
        },
    };
    if let Some(j) = expect_lit(s, i1, "]") {
        if j == n {
            let v: Vec<crate::chain::Block> = Vec::new();
            proof {
                assert(views_of(v@) =~= Seq::<BlockV>::empty());
            }
            return Some(v);
        } else {
            return None;
        }
    }
    let (b, j) = match parse_block(s, i1) {
        Some(x) => x,
        None => {
            return None;
        },
    };
    let (mut v, k) = match parse_blocks_more(s, j) {
        Some(x) => x,
        None => {
            return None;
        },
    };
    if k != n {
        return None;
    }
    let ghost v0 = v@;
    v.insert(0, b);
    proof {
        assert(views_of(v@) =~= seq![b@] + views_of(v0));
    }
    Some(v)
}

proof fn lemma_char_at(s: Seq<char>, i: int, e: Seq<char>, off: int)
    requires
        0 <= i,
        i + e.len() <= s.len(),
        s.subrange(i, i + e.len()) == e,
        0 <= off < e.len(),
    ensures
        s[i + off] == e[off],
{
    assert(s.subrange(i, i + e.len() as int)[off] == s[i + off]);
}

proof fn lemma_extract(s: Seq<char>, i: int, e: Seq<char>, off: int, l: int)
    requires
        0 <= i,
        i + e.len() <= s.len(),
        s.subrange(i, i + e.len()) == e,
        0 <= off,
        0 <= l,
        off + l <= e.len(),
    ensures
        s.subrange(i + off, i + off + l) == e.subrange(off, off + l),
{
    assert forall|t: int| 0 <= t < l implies #[trigger] s.subrange(i + off, i + off + l)[t]
        == e.subrange(off, off + l)[t] by {
        assert(s.subrange(i + off, i + off + l)[t] == s[i + off + t]);
        assert(s.subrange(i, i + e.len() as int)[off + t] == s[i + (off + t)]);
        assert(e.subrange(off, off + l)[t] == e[off + t]);
    }
    assert(s.subrange(i + off, i + off + l) =~= e.subrange(off, off + l));
}

proof fn lemma_digits_end_of_run(s: Seq<char>, i: int, j: int)
    requires
        0 <= i <= j <= s.len(),
        forall|k: int| i <= k < j ==> is_digit(s[k]),
        j == s.len() || !is_digit(s[j]),
    ensures
        digits_end(s, i) == j,
    decreases j - i,
{
    if i < j {
        lemma_digits_end_of_run(s, i + 1, j);
    }
}

proof fn lemma_p_num_rt(s: Seq<char>, i: int, n: nat, max: nat)
    requires
        n <= max,
        0 <= i,
        i + dec_str(n).len() <= s.len(),
        s.subrange(i, i + dec_str(n).len()) == dec_str(n),
        i + dec_str(n).len() == s.len() || !is_digit(s[i + dec_str(n).len()]),
    ensures
        p_num(s, i, max) == Some((n, i + dec_str(n).len())),
{
    let l = dec_str(n).len() as int;
    crate::numeral::lemma_dec_str_is_digits(n);
    assert forall|k: int| i <= k < i + l implies is_digit(s[k]) by {
        lemma_char_at(s, i, dec_str(n), k - i);
    }
    lemma_digits_end_of_run(s, i, i + l);
    crate::numeral::lemma_digits_val_of_dec_str(s, i, i + l, n);
}

proof fn lemma_p_str_body_rt(s: Seq<char>, i: int, x: Seq<char>)
    requires
        0 <= i,
        i + esc(x).len() + 1 <= s.len(),
        s.subrange(i, i + esc(x).len() + 1) == esc(x) + seq!['"'],
    ensures
        p_str_body(s, i) == Some((x, i + esc(x).len() + 1)),
    decreases x.len(),
{
    let e = esc(x) + seq!['"'];
    if x.len() == 0 {
        assert(e[0] == '"');
        lemma_char_at(s, i, e, 0);
        assert(x =~= Seq::<char>::empty());
    } else {
        let c = x[0];
        let x1 = x.drop_first();
        assert(esc(x) == esc_char(c) + esc(x1));
        if c == '"' || c == '\\' {
            assert(e[0] == '\\');
            assert(e[1] == c);
            lemma_char_at(s, i, e, 0);
            lemma_char_at(s, i, e, 1);
            assert(e.subrange(2, e.len() as int) =~= esc(x1) + seq!['"']);
            lemma_extract(s, i, e, 2, e.len() - 2);
            lemma_p_str_body_rt(s, i + 2, x1);
            assert(seq![c] + x1 =~= x);
        } else {
            assert(e[0] == c);
            lemma_char_at(s, i, e, 0);
            assert(e.subrange(1, e.len() as int) =~= esc(x1) + seq!['"']);
            lemma_extract(s, i, e, 1, e.len() - 1);
            lemma_p_str_body_rt(s, i + 1, x1);
            assert(seq![c] + x1 =~= x);
        }
    }
}

proof fn lemma_p_qstr_rt(s: Seq<char>, i: int, x: Seq<char>)
    requires
        0 <= i,
        i + enc_str(x).len() <= s.len(),
        s.subrange(i, i + enc_str(x).len()) == enc_str(x),
    ensures
        p_qstr(s, i) == Some((x, i + enc_str(x).len())),
{
    let e = enc_str(x);
    assert(e[0] == '"');
    lemma_char_at(s, i, e, 0);
    assert(e.subrange(1, e.len() as int) =~= esc(x) + seq!['"']);
    lemma_extract(s, i, e, 1, e.len() - 1);
    lemma_p_str_body_rt(s, i + 1, x);
}

proof fn lemma_p_opt_rt(s: Seq<char>, i: int, o: Option<Seq<char>>)
    requires
        0 <= i,
        i + enc_opt(o).len() <= s.len(),
        s.subrange(i, i + enc_opt(o).len()) == enc_opt(o),
    ensures
        p_opt(s, i) == Some((o, i + enc_opt(o).len())),
{
    reveal_strlit("null");
    let e = enc_opt(o);
    match o {
        None => {
            assert(p_lit(s, i, "null"@) == Some(i + 4));
        },
        Some(x) => {
            assert(e[0] == '"');
            lemma_char_at(s, i, e, 0);
            if i + 4 <= s.len() && s.subrange(i, i + 4) == "null"@ {
                assert(s.subrange(i, i + 4)[0] == s[i]);
                assert(false);
            }
            assert(p_lit(s, i, "null"@) is None);
            lemma_p_qstr_rt(s, i, x);
        },
    }
}

#[verifier::rlimit(100)]
proof fn lemma_p_block_rt(s: Seq<char>, i: int, b: BlockV)
    requires
        b.index <= u32::MAX,
        b.timestamp <= u128::MAX,
        0 <= i,
        i + enc_block(b).len() <= s.len(),
        s.subrange(i, i + enc_block(b).len()) == enc_block(b),
    ensures
        p_block(s, i) == Some((b, i + enc_block(b).len())),
{
    let e = enc_block(b);
    let l1 = "{\"index\":"@;
    let l2 = ",\"timestamp\":"@;
    let l3 = ",\"sender\":"@;
    let l4 = ",\"receiver\":"@;
    let l5 = ",\"file_hash\":"@;
    let l6 = ",\"hash\":"@;
    let l7 = ",\"prev_hash\":"@;
    let l8 = "}"@;
    reveal_strlit("{\"index\":");
    reveal_strlit(",\"timestamp\":");
    reveal_strlit(",\"sender\":");
    reveal_strlit(",\"receiver\":");
    reveal_strlit(",\"file_hash\":");
    reveal_strlit(",\"hash\":");
    reveal_strlit(",\"prev_hash\":");
    reveal_strlit("}");
    let i1 = i + l1.len() as int;
    let i2 = i1 + dec_str(b.index).len() as int;
    let i3 = i2 + l2.len() as int;
    let i4 = i3 + dec_str(b.timestamp).len() as int;
    let i5 = i4 + l3.len() as int;
    let i6 = i5 + enc_str(b.sender).len() as int;
    let i7 = i6 + l4.len() as int;
    let i8 = i7 + enc_str(b.receiver).len() as int;
    let i9 = i8 + l5.len() as int;
    let i10 = i9 + enc_str(b.file_hash).len() as int;
    let i11 = i10 + l6.len() as int;
    let i12 = i11 + enc_opt(b.hash).len() as int;
    let i13 = i12 + l7.len() as int;
    let i14 = i13 + enc_opt(b.prev_hash).len() as int;
    let i15 = i14 + l8.len() as int;
    assert(i15 == i + e.len());
    assert(e.subrange(0, i1 - i) =~= l1);
    lemma_extract(s, i, e, 0, i1 - i);
    assert(p_lit(s, i, l1) == Some(i1));
    assert(e.subrange(i1 - i, i2 - i) =~= dec_str(b.index));
    lemma_extract(s, i, e, i1 - i, i2 - i1);
    assert(e[i2 - i] == ',');
    lemma_char_at(s, i, e, i2 - i);
    assert(!is_digit(s[i2]));
    lemma_p_num_rt(s, i1, b.index, u32::MAX as nat);
    assert(e.subrange(i2 - i, i3 - i) =~= l2);
    lemma_extract(s, i, e, i2 - i, i3 - i2);
    assert(p_lit(s, i2, l2) == Some(i3));
    assert(e.subrange(i3 - i, i4 - i) =~= dec_str(b.timestamp));
    lemma_extract(s, i, e, i3 - i, i4 - i3);
    assert(e[i4 - i] == ',');
    lemma_char_at(s, i, e, i4 - i);
    assert(!is_digit(s[i4]));
    lemma_p_num_rt(s, i3, b.timestamp, u128::MAX as nat);
    assert(e.subrange(i4 - i, i5 - i) =~= l3);
    lemma_extract(s, i, e, i4 - i, i5 - i4);
    assert(p_lit(s, i4, l3) == Some(i5));
    assert(e.subrange(i5 - i, i6 - i) =~= enc_str(b.sender));
    lemma_extract(s, i, e, i5 - i, i6 - i5);
    lemma_p_qstr_rt(s, i5, b.sender);
    assert(e.subrange(i6 - i, i7 - i) =~= l4);
    lemma_extract(s, i, e, i6 - i, i7 - i6);
    assert(p_lit(s, i6, l4) == Some(i7));
    assert(e.subrange(i7 - i, i8 - i) =~= enc_str(b.receiver));
    lemma_extract(s, i, e, i7 - i, i8 - i7);
    lemma_p_qstr_rt(s, i7, b.receiver);
    assert(e.subrange(i8 - i, i9 - i) =~= l5);
    lemma_extract(s, i, e, i8 - i, i9 - i8);
    assert(p_lit(s, i8, l5) == Some(i9));
    assert(e.subrange(i9 - i, i10 - i) =~= enc_str(b.file_hash));
    lemma_extract(s, i, e, i9 - i, i10 - i9);
    lemma_p_qstr_rt(s, i9, b.file_hash);
    assert(e.subrange(i10 - i, i11 - i) =~= l6);
    lemma_extract(s, i, e, i10 - i, i11 - i10);
    assert(p_lit(s, i10, l6) == Some(i11));
    assert(e.subrange(i11 - i, i12 - i) =~= enc_opt(b.hash));
    lemma_extract(s, i, e, i11 - i, i12 - i11);
    lemma_p_opt_rt(s, i11, b.hash);
    assert(e.subrange(i12 - i, i13 - i) =~= l7);
    lemma_extract(s, i, e, i12 - i, i13 - i12);
    assert(p_lit(s, i12, l7) == Some(i13));
    assert(e.subrange(i13 - i, i14 - i) =~= enc_opt(b.prev_hash));
    lemma_extract(s, i, e, i13 - i, i14 - i13);
    lemma_p_opt_rt(s, i13, b.prev_hash);
    assert(e.subrange(i14 - i, i15 - i) =~= l8);
    lemma_extract(s, i, e, i14 - i, i15 - i14);
    assert(p_lit(s, i14, l8) == Some(i15));
    assert(p_block(s, i) == Some((b, i15)));
}

/// The tail of a snapshot after its first record: for each further record
/// a comma and the record, then the closing bracket.
pub open spec fn enc_tail(bs: Seq<BlockV>) -> Seq<char>
    decreases bs.len(),
{
    if bs.len() == 0 {
        "]"@
    } else {
        ","@ + enc_block(bs[0]) + enc_tail(bs.drop_first())
    }
}

/// Every block's numerals fit their machine words.
pub open spec fn blocks_ranges_ok(bs: Seq<BlockV>) -> bool {
    forall|k: int|
        0 <= k < bs.len() ==> (#[trigger] bs[k]).index <= u32::MAX && bs[k].timestamp
            <= u128::MAX
}

proof fn lemma_p_blocks_more_rt(s: Seq<char>, i: int, bs: Seq<BlockV>)
    requires
        blocks_ranges_ok(bs),
        0 <= i,
        i + enc_tail(bs).len() <= s.len(),
        s.subrange(i, i + enc_tail(bs).len()) == enc_tail(bs),
    ensures
        p_blocks_more(s, i) == Some((bs, i + enc_tail(bs).len())),
    decreases bs.len(),
{
    reveal_strlit("]");
    reveal_strlit(",");
    reveal_strlit("{\"index\":");
    let e = enc_tail(bs);
    if bs.len() == 0 {
        assert(p_lit(s, i, "]"@) == Some(i + 1));
    } else {
        let b0 = bs[0];
        let rest = bs.drop_first();
        assert(e[0] == ',');
        lemma_char_at(s, i, e, 0);
        if i + 1 <= s.len() && s.subrange(i, i + 1) == "]"@ {
            assert(s.subrange(i, i + 1)[0] == s[i]);
            assert(false);
        }
        assert(p_lit(s, i, "]"@) is None);
        assert(e.subrange(0, 1) =~= ","@);
        lemma_extract(s, i, e, 0, 1);
        assert(p_lit(s, i, ","@) == Some(i + 1));
        let j: int = i + 1 + enc_block(b0).len() as int;
        assert(e.subrange(1, j - i) =~= enc_block(b0));
        lemma_extract(s, i, e, 1, j - i - 1);
        lemma_p_block_rt(s, i + 1, b0);
        assert(e.subrange(j - i, e.len() as int) =~= enc_tail(rest));
        lemma_extract(s, i, e, j - i, e.len() - (j - i));
        assert(blocks_ranges_ok(rest)) by {
            assert(forall|k: int| 0 <= k < rest.len() ==> rest[k] == bs[k + 1]);
        }
        lemma_p_blocks_more_rt(s, j, rest);
        assert(seq![b0] + rest =~= bs);
    }
}

/// The snapshot round trip: a serialized chain parses back to exactly the
/// same ordered sequence of blocks — same indexes, same timestamps, same
/// parties, same hashes.
#[verifier::rlimit(100)]
pub proof fn lemma_snapshot_round_trip(bs: Seq<BlockV>)
    requires
        blocks_ranges_ok(bs),
    ensures
        dec_chain(enc_chain(bs)) == Some(bs),
{
    let s = enc_chain(bs);
    reveal_strlit("[");
    reveal_strlit("]");
    reveal_strlit("{\"index\":");
    assert(s.subrange(0, s.len() as int) =~= s);
    if bs.len() == 0 {
        assert(s =~= seq!['[', ']']);
        assert(s.subrange(0, 1) =~= "["@);
        assert(p_lit(s, 0, "["@) == Some(1int));
        assert(s.subrange(1, 2) =~= "]"@);
        assert(p_lit(s, 1, "]"@) == Some(2int));
    } else {
        let b0 = bs[0];
        let rest = bs.drop_first();
        lemma_enc_blocks_tail(bs);
        let e = seq!['['] + enc_block(b0) + enc_tail(rest);
        assert(s =~= "["@ + (enc_blocks(bs) + "]"@));
        assert("["@ + (enc_blocks(bs) + "]"@) == "["@ + (enc_block(b0) + enc_tail(rest)));
        assert("["@ + (enc_block(b0) + enc_tail(rest)) =~= e);
        assert(s.subrange(0, s.len() as int) =~= e);
        assert(e[0] == '[');
        assert(e.subrange(0, 1) =~= "["@);
        lemma_extract(s, 0, e, 0, 1);
        assert(p_lit(s, 0, "["@) == Some(1int));
        assert(e[1] == enc_block(b0)[0]);
        assert(e[1] == '{');
        lemma_char_at(s, 0, e, 1);
        if 2 <= s.len() && s.subrange(1, 2) == "]"@ {
            assert(s.subrange(1, 2)[0] == s[1]);
            assert(false);
        }
        assert(p_lit(s, 1, "]"@) is None);
        let j: int = 1 + enc_block(b0).len() as int;
        assert(e.subrange(1, j) =~= enc_block(b0));
        lemma_extract(s, 0, e, 1, j - 1);
        lemma_p_block_rt(s, 1, b0);
        assert(blocks_ranges_ok(rest)) by {
            assert(forall|k: int| 0 <= k < rest.len() ==> rest[k] == bs[k + 1]);
        }
        assert(e.subrange(j, e.len() as int) =~= enc_tail(rest));
        lemma_extract(s, 0, e, j, e.len() - j);
        lemma_p_blocks_more_rt(s, j, rest);
        assert(j + enc_tail(rest).len() == s.len());
        assert(seq![b0] + rest =~= bs);
    }
}

/// The snapshot body relates to the tail form: behind its first record,
/// the rest of a non-empty chain encodes as the tail.
proof fn lemma_enc_blocks_tail(bs: Seq<BlockV>)
    requires
        bs.len() >= 1,
    ensures
        enc_blocks(bs) + "]"@ =~= enc_block(bs[0]) + enc_tail(bs.drop_first()),
    decreases bs.len(),
{
    reveal_strlit("]");
    reveal_strlit(",");
    if bs.len() == 1 {
        assert(bs.drop_first().len() == 0);
        assert(enc_tail(bs.drop_first()) == "]"@);
    } else {
        let rest = bs.drop_first();
        lemma_enc_blocks_tail(rest);
        assert(enc_blocks(bs) + "]"@ =~= enc_block(bs[0]) + (","@ + (enc_blocks(rest)
            + "]"@)));
        assert(enc_block(bs[0]) + (","@ + (enc_blocks(rest) + "]"@)) =~= enc_block(bs[0])
            + enc_tail(rest));
    }
}

fn is_genesis_block(b: &crate::chain::Block) -> (r: bool)
    ensures
        r == (b@ == crate::chain::genesis()),
{
    proof {
        reveal_strlit("0");
        assert("0"@ =~= seq!['0']);
    }
    let r = b.index == 0 && b.timestamp == 0 && b.sender.as_str().unicode_len() == 0
        && b.receiver.as_str().unicode_len() == 0 && b.file_hash.as_str().unicode_len() == 0
        && (match &b.hash {
        Some(h) => *h == "0".to_owned(),
        None => false,
    }) && (match &b.prev_hash {
        None => true,
        Some(_) => false,
    });
    proof {
        if r {
            assert(b@.sender =~= Seq::<char>::empty());
            assert(b@.receiver =~= Seq::<char>::empty());
            assert(b@.file_hash =~= Seq::<char>::empty());
            assert(b@.hash matches Some(h) && h =~= seq!['0']);
            assert(b@ == crate::chain::genesis());
        }
    }
    r
}

/// One clause of chain integrity, at position `j`.
pub open spec fn chain_wf_at(bs: Seq<BlockV>, j: int) -> bool {
    &&& crate::chain::block_hash_ok(bs[j])
    &&& bs[j].prev_hash == bs[j - 1].hash
    &&& bs[j].index == j
}

/// Checks chain integrity of loaded blocks, recomputing every hash.
fn validate_chain(v: &Vec<crate::chain::Block>) -> (r: bool)
    ensures
        r == chain_wf(views_of(v@)),
{
    let ghost bs = views_of(v@);
    if v.len() == 0 {
        return false;
    }
    if !is_genesis_block(&v[0]) {
        return false;
    }
    let mut i: usize = 1;
    while i < v.len()
        invariant
            1 <= i <= v@.len(),
            bs == views_of(v@),
            bs.len() == v@.len(),
            bs[0] == crate::chain::genesis(),
            forall|j: int| 1 <= j < i ==> chain_wf_at(bs, j),
        decreases v@.len() - i,
    {
        if !((v[i].index as usize) == i) {
            proof {
                assert(!chain_wf_at(bs, i as int));
            }
            return false;
        }
        let linked = match (&v[i].prev_hash, &v[i - 1].hash) {
            (Some(p), Some(h)) => *p == *h,
            _ => false,
        };
        if !linked {
            proof {
                assert(!chain_wf_at(bs, i as int));
            }
            return false;
        }
        let text = crate::chain::hash_text(&v[i]);
        let recomputed = crate::chain::sha256_hex(text.as_str());
        let hash_ok = match &v[i].hash {
            Some(h) => *h == recomputed,
            None => false,
        };
        if !hash_ok {
            proof {
                assert(!chain_wf_at(bs, i as int));
            }
            return false;
        }
        proof {
            assert(chain_wf_at(bs, i as int));
        }
        i = i + 1;
    }
    proof {
        assert forall|j: int| 1 <= j < bs.len() implies {
            &&& crate::chain::block_hash_ok(#[trigger] bs[j])
            &&& bs[j].prev_hash == bs[j - 1].hash
            &&& bs[j].index == j
        } by {
            assert(chain_wf_at(bs, j));
        }
        assert(chain_wf(bs));
    }
    true
}

impl BlockChain {
    /// Rebuilds a ledger from a persisted snapshot: the text must parse and
    /// the loaded blocks must pass the full integrity check — genesis
    /// first, positions in order, predecessor hashes linked, every hash
    /// recomputed and matched. The holding area starts empty: it is never
    /// persisted.
    pub fn from_snapshot(s: &str) -> (r: Option<BlockChain>)
        ensures
            r matches Some(c) ==> c.wf() && dec_chain(s@) == Some(c@.blocks) && c@.pending
                =~= Seq::<BlockV>::empty(),
            r is None ==> !(dec_chain(s@) matches Some(bs) && chain_wf(bs)),
    {
        match parse_chain(s) {
            None => None,
            Some(v) => {
                if validate_chain(&v) {
                    Some(BlockChain::raw(v))
                } else {
                    None
                }
            },
        }
    }
}

impl BlockChain {
    /// The committed chain, serialized for inspection or persistence; the
    /// holding area is not part of the snapshot.
    pub fn get_blocks(&self) -> (r: String)
        ensures
            r@ == enc_chain(self@.blocks),
    {
        encode_blocks(self.blocks_ref())
    }
}

} // verus!
