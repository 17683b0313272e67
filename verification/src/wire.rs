//! The canonical wire envelope: length-prefixed binary framing with
//! big-endian integers. The frame carries a term, the sender's name as
//! UTF-8 bytes, and an opaque body; decoding accepts exactly the byte
//! strings that some frame encodes to, and recovers that frame.

use vstd::prelude::*;
use crate::raft::{LogEntry, RaftMessageType};

verus! {

/// The eight big-endian bytes of a machine word.
pub open spec fn be8(x: u64) -> Seq<u8> {
    seq![
        ((x >> 56) & 0xff) as u8,
        ((x >> 48) & 0xff) as u8,
        ((x >> 40) & 0xff) as u8,
        ((x >> 32) & 0xff) as u8,
        ((x >> 24) & 0xff) as u8,
        ((x >> 16) & 0xff) as u8,
        ((x >> 8) & 0xff) as u8,
        (x & 0xff) as u8,
    ]
}

/// The word eight big-endian bytes denote.
pub open spec fn be_val(s: Seq<u8>) -> u64 {
    (((s[0] as u64) << 56) | ((s[1] as u64) << 48) | ((s[2] as u64) << 40) | ((s[3] as u64) << 32)
        | ((s[4] as u64) << 24) | ((s[5] as u64) << 16) | ((s[6] as u64) << 8) | (s[7] as u64))
}

/// The canonical frame: term, then the sender length and bytes, then the
/// body length and bytes, integers big-endian.
pub open spec fn spec_frame(term: u64, sender: Seq<u8>, body: Seq<u8>) -> Seq<u8> {
    be8(term) + be8(sender.len() as u64) + sender + be8(body.len() as u64) + body
}

/// Reading back the bytes of a word yields the word.
pub proof fn lemma_be_val_of_be8(x: u64)
    ensures
        be_val(be8(x)) == x,
{
    assert((((((x >> 56) & 0xff) as u8) as u64) << 56) | (((((x >> 48) & 0xff) as u8) as u64)
        << 48) | (((((x >> 40) & 0xff) as u8) as u64) << 40) | (((((x >> 32) & 0xff) as u8) as u64)
        << 32) | (((((x >> 24) & 0xff) as u8) as u64) << 24) | (((((x >> 16) & 0xff) as u8) as u64)
        << 16) | (((((x >> 8) & 0xff) as u8) as u64) << 8) | (((x & 0xff) as u8) as u64) == x) by (
    bit_vector);
}

/// Eight bytes are the bytes of the word they denote.
pub proof fn lemma_be8_of_be_val(s: Seq<u8>)
    requires
        s.len() == 8,
    ensures
        be8(be_val(s)) == s,
{
    let b0 = s[0];
    let b1 = s[1];
    let b2 = s[2];
    let b3 = s[3];
    let b4 = s[4];
    let b5 = s[5];
    let b6 = s[6];
    let b7 = s[7];
    let x = be_val(s);
    assert(x == (((b0 as u64) << 56) | ((b1 as u64) << 48) | ((b2 as u64) << 40) | ((b3 as u64)
        << 32) | ((b4 as u64) << 24) | ((b5 as u64) << 16) | ((b6 as u64) << 8) | (b7 as u64)));
    let y = (((b0 as u64) << 56) | ((b1 as u64) << 48) | ((b2 as u64) << 40) | ((b3 as u64) << 32)
        | ((b4 as u64) << 24) | ((b5 as u64) << 16) | ((b6 as u64) << 8) | (b7 as u64));
    assert((((y >> 56) & 0xff) as u8) == b0 && (((y >> 48) & 0xff) as u8) == b1 && (((y >> 40)
        & 0xff) as u8) == b2 && (((y >> 32) & 0xff) as u8) == b3 && (((y >> 24) & 0xff) as u8)
        == b4 && (((y >> 16) & 0xff) as u8) == b5 && (((y >> 8) & 0xff) as u8) == b6 && ((y
        & 0xff) as u8) == b7) by (bit_vector)
        requires
            y == (((b0 as u64) << 56) | ((b1 as u64) << 48) | ((b2 as u64) << 40) | ((b3 as u64)
                << 32) | ((b4 as u64) << 24) | ((b5 as u64) << 16) | ((b6 as u64) << 8) | (
            b7 as u64)),
    ;
    assert(be8(x) =~= s);
}

/// Two equal frames carry the same term, sender and body.
pub proof fn lemma_frame_injective(
    t1: u64,
    s1: Seq<u8>,
    b1: Seq<u8>,
    t2: u64,
    s2: Seq<u8>,
    b2: Seq<u8>,
)
    requires
        s1.len() <= u64::MAX,
        s2.len() <= u64::MAX,
        b1.len() <= u64::MAX,
        b2.len() <= u64::MAX,
        spec_frame(t1, s1, b1) == spec_frame(t2, s2, b2),
    ensures
        t1 == t2,
        s1 == s2,
        b1 == b2,
{
    let f1 = spec_frame(t1, s1, b1);
    let f2 = spec_frame(t2, s2, b2);
    assert(f1.subrange(0, 8) =~= be8(t1));
    assert(f2.subrange(0, 8) =~= be8(t2));
    lemma_be_val_of_be8(t1);
    lemma_be_val_of_be8(t2);
    assert(t1 == t2);
    assert(f1.subrange(8, 16) =~= be8(s1.len() as u64));
    assert(f2.subrange(8, 16) =~= be8(s2.len() as u64));
    lemma_be_val_of_be8(s1.len() as u64);
    lemma_be_val_of_be8(s2.len() as u64);
    assert(s1.len() == s2.len());
    assert(s1 =~= f1.subrange(16, 16 + s1.len() as int));
    assert(s2 =~= f2.subrange(16, 16 + s2.len() as int));
    assert(s1 == s2);
    assert(b1 =~= f1.subrange(24 + s1.len() as int, f1.len() as int));
    assert(b2 =~= f2.subrange(24 + s2.len() as int, f2.len() as int));
    assert(b1 == b2);
}

/// Append the eight big-endian bytes of `x`.
fn push_be8(out: &mut Vec<u8>, x: u64)
    ensures
        final(out)@ == old(out)@ + be8(x),
{
    out.push(((x >> 56) & 0xff) as u8);
    out.push(((x >> 48) & 0xff) as u8);
    out.push(((x >> 40) & 0xff) as u8);
    out.push(((x >> 32) & 0xff) as u8);
    out.push(((x >> 24) & 0xff) as u8);
    out.push(((x >> 16) & 0xff) as u8);
    out.push(((x >> 8) & 0xff) as u8);
    out.push((x & 0xff) as u8);
    proof {
        assert(out@ =~= old(out)@ + be8(x));
    }
}

/// Read the word at `off`.
fn read_be8(bytes: &Vec<u8>, off: usize) -> (x: u64)
    requires
        off + 8 <= bytes@.len(),
    ensures
        x == be_val(bytes@.subrange(off as int, off as int + 8)),
{
    let n = bytes.len();
    let x = (((bytes[off] as u64) << 56) | ((bytes[off + 1] as u64) << 48) | ((bytes[off
        + 2] as u64) << 40) | ((bytes[off + 3] as u64) << 32) | ((bytes[off + 4] as u64) << 24) | ((
    bytes[off + 5] as u64) << 16) | ((bytes[off + 6] as u64) << 8) | (bytes[off + 7] as u64));
    proof {
        let s = bytes@.subrange(off as int, off as int + 8);
        assert(s[0] == bytes@[off as int] && s[1] == bytes@[off as int + 1] && s[2] == bytes@[
            off as int + 2] && s[3] == bytes@[off as int + 3] && s[4] == bytes@[off as int + 4]
            && s[5] == bytes@[off as int + 5] && s[6] == bytes@[off as int + 6] && s[7] == bytes@[
            off as int + 7]);
    }
    x
}

/// Copy `bytes[from..to]`.
fn copy_range(bytes: &Vec<u8>, from: usize, to: usize) -> (r: Vec<u8>)
    requires
        from <= to <= bytes@.len(),
    ensures
        r@ == bytes@.subrange(from as int, to as int),
{
    let mut r: Vec<u8> = Vec::new();
    let mut i: usize = from;
    while i < to
        invariant
            from <= i <= to <= bytes@.len(),
            r@ == bytes@.subrange(from as int, i as int),
        decreases to - i,
    {
        r.push(bytes[i]);
        proof {
            assert(r@ =~= bytes@.subrange(from as int, i as int + 1));
        }
        i = i + 1;
    }
    proof {
        assert(r@ =~= bytes@.subrange(from as int, to as int));
    }
    r
}

/// Encode one envelope: the term, the sender's name in bytes, the body.
pub fn encode_frame(term: u64, sender: &Vec<u8>, body: &Vec<u8>) -> (r: Vec<u8>)
    ensures
        r@ == spec_frame(term, sender@, body@),
{
    let mut out: Vec<u8> = Vec::new();
    push_be8(&mut out, term);
    push_be8(&mut out, sender.len() as u64);
    let mut i: usize = 0;
    let n = sender.len();
    while i < n
        invariant
            n == sender@.len(),
            i <= n,
            out@ == be8(term) + be8(sender@.len() as u64) + sender@.subrange(0, i as int),
        decreases n - i,
    {
        out.push(sender[i]);
        proof {
            assert(out@ =~= be8(term) + be8(sender@.len() as u64) + sender@.subrange(
                0,
                i as int + 1,
            ));
        }
        i = i + 1;
    }
    proof {
        assert(sender@.subrange(0, sender@.len() as int) =~= sender@);
    }
    push_be8(&mut out, body.len() as u64);
    let m = body.len();
    let mut j: usize = 0;
    while j < m
        invariant
            m == body@.len(),
            j <= m,
            out@ == be8(term) + be8(sender@.len() as u64) + sender@ + be8(body@.len() as u64)
                + body@.subrange(0, j as int),
        decreases m - j,
    {
        out.push(body[j]);
        proof {
            assert(out@ =~= be8(term) + be8(sender@.len() as u64) + sender@ + be8(
                body@.len() as u64,
            ) + body@.subrange(0, j as int + 1));
        }
        j = j + 1;
    }
    proof {
        assert(body@.subrange(0, body@.len() as int) =~= body@);
        assert(out@ =~= spec_frame(term, sender@, body@));
    }
    out
}

/// Decode one envelope. The result is the unique frame the input encodes;
/// byte strings that no frame produces are refused.
pub fn decode_frame(bytes: &Vec<u8>) -> (r: Option<(u64, Vec<u8>, Vec<u8>)>)
    ensures
        match r {
            Some((t, s, b)) => bytes@ == spec_frame(t, s@, b@),
            None => forall|t: u64, s: Seq<u8>, b: Seq<u8>| bytes@ != spec_frame(t, s, b),
        },
{
    let total = bytes.len();
    if total < 24 {
        proof {
            assert forall|t: u64, s: Seq<u8>, b: Seq<u8>| bytes@ != spec_frame(t, s, b) by {
                assert(spec_frame(t, s, b).len() >= 24);
            }
        }
        return None;
    }
    let term = read_be8(bytes, 0);
    let slen64 = read_be8(bytes, 8);
    if slen64 > (total - 24) as u64 {
        proof {
            assert forall|t: u64, s: Seq<u8>, b: Seq<u8>| bytes@ != spec_frame(t, s, b) by {
                if bytes@ == spec_frame(t, s, b) {
                    assert(bytes@.len() == 24 + s.len() + b.len());
                    assert(s.len() <= total - 24);
                    assert(bytes@.subrange(8, 16) =~= be8(s.len() as u64));
                    lemma_be_val_of_be8(s.len() as u64);
                    assert(slen64 == s.len());
                }
            }
        }
        return None;
    }
    let slen = slen64 as usize;
    let sender = copy_range(bytes, 16, 16 + slen);
    let blen64 = read_be8(bytes, 16 + slen);
    let blen = total - 24 - slen;
    if blen64 != blen as u64 {
        proof {
            assert forall|t: u64, s: Seq<u8>, b: Seq<u8>| bytes@ != spec_frame(t, s, b) by {
                if bytes@ == spec_frame(t, s, b) {
                    assert(bytes@.len() == 24 + s.len() + b.len());
                    assert(bytes@.subrange(8, 16) =~= be8(s.len() as u64));
                    lemma_be_val_of_be8(s.len() as u64);
                    assert(slen64 == s.len());
                    assert(bytes@.subrange(16 + s.len() as int, 24 + s.len() as int) =~= be8(b.len() as u64));
                    lemma_be_val_of_be8(b.len() as u64);
                    assert(blen64 == b.len());
                }
            }
        }
        return None;
    }
    let body = copy_range(bytes, 24 + slen, total);
    proof {
        let s = sender@;
        let b = body@;
        assert(bytes@.subrange(0, 8) =~= be8(term).subrange(0, 8)) by {
            lemma_be8_of_be_val(bytes@.subrange(0, 8));
        }
        lemma_be8_of_be_val(bytes@.subrange(0, 8));
        lemma_be8_of_be_val(bytes@.subrange(8, 16));
        lemma_be8_of_be_val(bytes@.subrange(16 + slen as int, 24 + slen as int));
        assert(be8(term) == bytes@.subrange(0, 8));
        assert(be8(s.len() as u64) == bytes@.subrange(8, 16));
        assert(be8(b.len() as u64) == bytes@.subrange(16 + slen as int, 24 + slen as int));
        assert(bytes@ =~= spec_frame(term, s, b));
    }
    Some((term, sender, body))
}

/// A length-prefixed UTF-8 string field.
pub open spec fn spec_str_field(s: Seq<char>) -> Seq<u8> {
    be8(vstd::utf8::encode_utf8(s).len() as u64) + vstd::utf8::encode_utf8(s)
}

/// One replicated entry: its term and index, then its length-prefixed
/// payload.
pub open spec fn spec_entry(e: LogEntry) -> Seq<u8> {
    be8(e.term) + be8(e.index) + be8(e.value@.len() as u64) + e.value@
}

/// A run of entries, in order.
pub open spec fn spec_entry_list(es: Seq<LogEntry>) -> Seq<u8>
    decreases es.len(),
{
    if es.len() == 0 {
        Seq::empty()
    } else {
        spec_entry(es[0]) + spec_entry_list(es.drop_first())
    }
}

proof fn lemma_entry_list_push(es: Seq<LogEntry>, e: LogEntry)
    ensures
        spec_entry_list(es.push(e)) == spec_entry_list(es) + spec_entry(e),
    decreases es.len(),
{
    if es.len() == 0 {
        assert(es.push(e).drop_first() =~= Seq::<LogEntry>::empty());
        assert(es.push(e)[0] == e);
        assert(spec_entry_list(Seq::<LogEntry>::empty()) =~= Seq::<u8>::empty());
        assert(spec_entry_list(es.push(e)) =~= spec_entry(e) + Seq::<u8>::empty());
        assert(spec_entry(e) + Seq::<u8>::empty() =~= spec_entry(e));
        assert(spec_entry_list(es) + spec_entry(e) =~= spec_entry(e));
    } else {
        assert(es.push(e).drop_first() =~= es.drop_first().push(e));
        lemma_entry_list_push(es.drop_first(), e);
        assert(es.push(e)[0] == es[0]);
        assert(spec_entry_list(es.push(e)) =~= spec_entry_list(es) + spec_entry(e));
    }
}

/// The canonical body of a protocol message: a tag byte, then the
/// variant's fields, strings and payloads length-prefixed, integers
/// big-endian.
pub open spec fn spec_body(m: RaftMessageType) -> Seq<u8> {
    match m {
        RaftMessageType::RequestVote { candidate_id, last_log_index, last_log_term } => seq![1u8]
            + spec_str_field(candidate_id@) + be8(last_log_index) + be8(last_log_term),
        RaftMessageType::RequestVoteResponse { vote_granted } => seq![
            2u8,
            (if vote_granted {
                1u8
            } else {
                0u8
            }),
        ],
        RaftMessageType::AppendEntries {
            leader_id,
            prev_log_index,
            prev_log_term,
            entries,
            leader_commit,
        } => seq![3u8] + spec_str_field(leader_id@) + be8(prev_log_index) + be8(prev_log_term)
            + be8(leader_commit) + be8(entries@.len() as u64) + spec_entry_list(entries@),
        RaftMessageType::AppendEntriesResponse { success, match_index } => seq![
            4u8,
            (if success {
                1u8
            } else {
                0u8
            }),
        ] + be8(match_index),
        RaftMessageType::Heartbeat => seq![5u8],
    }
}

/// Relies on String::from_utf8: it succeeds exactly on valid UTF-8, and
/// returns the string whose UTF-8 encoding is the input.
#[verifier::external_body]
fn bytes_to_string(v: Vec<u8>) -> (r: Option<String>)
    ensures
        r matches Some(s) ==> vstd::utf8::encode_utf8(s@) == v@,
        vstd::utf8::valid_utf8(v@) ==> r is Some,
{
    String::from_utf8(v).ok()
}

/// Append a byte string.
fn push_bytes(out: &mut Vec<u8>, src: &Vec<u8>)
    ensures
        final(out)@ == old(out)@ + src@,
{
    let n = src.len();
    let mut i: usize = 0;
    proof {
        assert(out@ =~= old(out)@ + src@.subrange(0, 0));
    }
    while i < n
        invariant
            n == src@.len(),
            i <= n,
            out@ == old(out)@ + src@.subrange(0, i as int),
        decreases n - i,
    {
        out.push(src[i]);
        proof {
            assert(out@ =~= old(out)@ + src@.subrange(0, i as int + 1));
        }
        i = i + 1;
    }
    proof {
        assert(src@.subrange(0, n as int) =~= src@);
    }
}

/// Append a length-prefixed UTF-8 string field.
fn push_str_field(out: &mut Vec<u8>, s: &String)
    ensures
        final(out)@ == old(out)@ + spec_str_field(s@),
{
    let bs = s.as_str().as_bytes();
    push_be8(out, bs.len() as u64);
    let n = bs.len();
    let mut i: usize = 0;
    proof {
        assert(out@ =~= old(out)@ + be8(bs@.len() as u64) + bs@.subrange(0, 0));
    }
    while i < n
        invariant
            n == bs@.len(),
            i <= n,
            out@ == old(out)@ + be8(bs@.len() as u64) + bs@.subrange(0, i as int),
        decreases n - i,
    {
        out.push(bs[i]);
        proof {
            assert(out@ =~= old(out)@ + be8(bs@.len() as u64) + bs@.subrange(0, i as int + 1));
        }
        i = i + 1;
    }
    proof {
        assert(bs@.subrange(0, n as int) =~= bs@);
        assert(out@ =~= old(out)@ + spec_str_field(s@));
    }
}

/// Encode one message body canonically.
pub fn encode_body(m: &RaftMessageType) -> (r: Vec<u8>)
    ensures
        r@ == spec_body(*m),
{
    let mut out: Vec<u8> = Vec::new();
    match m {
        RaftMessageType::RequestVote { candidate_id, last_log_index, last_log_term } => {
            out.push(1u8);
            proof {
                assert(out@ =~= seq![1u8]);
            }
            push_str_field(&mut out, candidate_id);
            push_be8(&mut out, *last_log_index);
            push_be8(&mut out, *last_log_term);
            proof {
                assert(out@ =~= spec_body(*m));
            }
        },
        RaftMessageType::RequestVoteResponse { vote_granted } => {
            out.push(2u8);
            out.push(
                if *vote_granted {
                    1u8
                } else {
                    0u8
                },
            );
            proof {
                assert(out@ =~= spec_body(*m));
            }
        },
        RaftMessageType::AppendEntries {
            leader_id,
            prev_log_index,
            prev_log_term,
            entries,
            leader_commit,
        } => {
            out.push(3u8);
            proof {
                assert(out@ =~= seq![3u8]);
            }
            push_str_field(&mut out, leader_id);
            push_be8(&mut out, *prev_log_index);
            push_be8(&mut out, *prev_log_term);
            push_be8(&mut out, *leader_commit);
            push_be8(&mut out, entries.len() as u64);
            let ghost prefix = out@;
            let n = entries.len();
            let mut k: usize = 0;
            proof {
                assert(out@ =~= prefix + spec_entry_list(entries@.subrange(0, 0)));
            }
            while k < n
                invariant
                    n == entries@.len(),
                    k <= n,
                    out@ == prefix + spec_entry_list(entries@.subrange(0, k as int)),
                decreases n - k,
            {
                let e = &entries[k];
                push_be8(&mut out, e.term);
                push_be8(&mut out, e.index);
                push_be8(&mut out, e.value.len() as u64);
                push_bytes(&mut out, &e.value);
                proof {
                    assert(entries@.subrange(0, k as int).push(entries@[k as int])
                        =~= entries@.subrange(0, k as int + 1));
                    lemma_entry_list_push(entries@.subrange(0, k as int), entries@[k as int]);
                    assert(out@ =~= prefix + spec_entry_list(entries@.subrange(0, k as int + 1)));
                }
                k = k + 1;
            }
            proof {
                assert(entries@.subrange(0, n as int) =~= entries@);
                assert(out@ =~= spec_body(*m));
            }
        },
        RaftMessageType::AppendEntriesResponse { success, match_index } => {
            out.push(4u8);
            out.push(
                if *success {
                    1u8
                } else {
                    0u8
                },
            );
            proof {
                assert(out@ =~= seq![
                    4u8,
                    (if *success {
                        1u8
                    } else {
                        0u8
                    }),
                ]);
            }
            push_be8(&mut out, *match_index);
            proof {
                assert(out@ =~= spec_body(*m));
            }
        },
        RaftMessageType::Heartbeat => {
            out.push(5u8);
            proof {
                assert(out@ =~= spec_body(*m));
            }
        },
    }
    out
}

/// Decode a replication request body.
#[verifier::rlimit(60)]
fn decode_append_entries(bytes: &Vec<u8>) -> (r: Option<RaftMessageType>)
    ensures
        r matches Some(m) ==> bytes@ == spec_body(m),
{
    let total = bytes.len();
    if total < 41 {
        return None;
    }
    if !(bytes[0] == 3) {
        return None;
    }
    let slen64 = read_be8(bytes, 1);
        if slen64 > (total - 41) as u64 {
            return None;
        }
        let slen = slen64 as usize;
        let sbytes = copy_range(bytes, 9, 9 + slen);
        let ghost sb = sbytes@;
        let s = match bytes_to_string(sbytes) {
            Some(s) => s,
            None => {
                return None;
            },
        };
        let pli = read_be8(bytes, 9 + slen);
        let plt = read_be8(bytes, 17 + slen);
        let lc = read_be8(bytes, 25 + slen);
        let cnt = read_be8(bytes, 33 + slen);
        let mut off: usize = 41 + slen;
        let mut es: Vec<LogEntry> = Vec::new();
        let mut i: u64 = 0;
        proof {
            assert(spec_entry_list(es@) =~= bytes@.subrange(41 + slen as int, off as int));
        }
        while i < cnt
            invariant
                total == bytes@.len(),
                41 + slen <= off <= total,
                i <= cnt,
                es@.len() == i,
                spec_entry_list(es@) == bytes@.subrange(41 + slen as int, off as int),
            decreases cnt - i,
        {
            if total - off < 24 {
                return None;
            }
            let term = read_be8(bytes, off);
            let idx = read_be8(bytes, off + 8);
            let vlen64 = read_be8(bytes, off + 16);
            if vlen64 > (total - off - 24) as u64 {
                return None;
            }
            let vlen = vlen64 as usize;
            let value = copy_range(bytes, off + 24, off + 24 + vlen);
            let e = LogEntry { term, index: idx, value };
            proof {
                lemma_be8_of_be_val(bytes@.subrange(off as int, off as int + 8));
                lemma_be8_of_be_val(bytes@.subrange(off as int + 8, off as int + 16));
                lemma_be8_of_be_val(bytes@.subrange(off as int + 16, off as int + 24));
                assert(spec_entry(e) =~= bytes@.subrange(off as int, off as int + 24 + vlen));
                lemma_entry_list_push(es@, e);
            }
            es.push(e);
            proof {
                assert(spec_entry_list(es@) =~= bytes@.subrange(
                    41 + slen as int,
                    off as int + 24 + vlen,
                ));
            }
            off = off + 24 + vlen;
            i = i + 1;
        }
        if off != total {
            return None;
        }
        let ghost ges = es@;
        let m = RaftMessageType::AppendEntries {
            leader_id: s,
            prev_log_index: pli,
            prev_log_term: plt,
            entries: es,
            leader_commit: lc,
        };
        proof {
            lemma_be8_of_be_val(bytes@.subrange(1, 9));
            lemma_be8_of_be_val(bytes@.subrange(9 + slen as int, 17 + slen as int));
            lemma_be8_of_be_val(bytes@.subrange(17 + slen as int, 25 + slen as int));
            lemma_be8_of_be_val(bytes@.subrange(25 + slen as int, 33 + slen as int));
            lemma_be8_of_be_val(bytes@.subrange(33 + slen as int, 41 + slen as int));
            assert(vstd::utf8::encode_utf8(m->AppendEntries_leader_id@) == sb);
            assert(ges.len() == cnt);
            assert(bytes@ =~= spec_body(m));
        }
        Some(m)
}

/// Decode one message body. The result is a message whose canonical
/// encoding is exactly the input; any other byte string is refused.
pub fn decode_body(bytes: &Vec<u8>) -> (r: Option<RaftMessageType>)
    ensures
        r matches Some(m) ==> bytes@ == spec_body(m),
{
    let total = bytes.len();
    if total < 1 {
        return None;
    }
    let tag = bytes[0];
    if tag == 1 {
        if total < 25 {
            return None;
        }
        let slen64 = read_be8(bytes, 1);
        if slen64 != (total - 25) as u64 {
            return None;
        }
        let slen = (total - 25) as usize;
        let sbytes = copy_range(bytes, 9, 9 + slen);
        let ghost sb = sbytes@;
        let s = match bytes_to_string(sbytes) {
            Some(s) => s,
            None => {
                return None;
            },
        };
        let lli = read_be8(bytes, 9 + slen);
        let llt = read_be8(bytes, 17 + slen);
        let m = RaftMessageType::RequestVote {
            candidate_id: s,
            last_log_index: lli,
            last_log_term: llt,
        };
        proof {
            lemma_be8_of_be_val(bytes@.subrange(1, 9));
            lemma_be8_of_be_val(bytes@.subrange(9 + slen as int, 17 + slen as int));
            lemma_be8_of_be_val(bytes@.subrange(17 + slen as int, 25 + slen as int));
            assert(vstd::utf8::encode_utf8(m->RequestVote_candidate_id@) == sb);
            assert(bytes@ =~= spec_body(m));
        }
        Some(m)
    } else if tag == 2 {
        if total != 2 {
            return None;
        }
        let b = bytes[1];
        if b > 1 {
            return None;
        }
        let m = RaftMessageType::RequestVoteResponse { vote_granted: b == 1 };
        proof {
            assert(bytes@ =~= spec_body(m));
        }
        Some(m)
    } else if tag == 3 {
        decode_append_entries(bytes)
    } else if tag == 4 {
        if total != 10 {
            return None;
        }
        let b = bytes[1];
        if b > 1 {
            return None;
        }
        let mi = read_be8(bytes, 2);
        let m = RaftMessageType::AppendEntriesResponse { success: b == 1, match_index: mi };
        proof {
            lemma_be8_of_be_val(bytes@.subrange(2, 10));
            assert(bytes@ =~= spec_body(m));
        }
        Some(m)
    } else if tag == 5 {
        if total != 1 {
            return None;
        }
        proof {
            assert(bytes@ =~= spec_body(RaftMessageType::Heartbeat));
        }
        Some(RaftMessageType::Heartbeat)
    } else {
        None
    }
}

/// Field lengths small enough for the length prefixes to be exact; every
/// value a program actually holds satisfies this.
pub open spec fn body_bounded(m: RaftMessageType) -> bool {
    match m {
        RaftMessageType::RequestVote { candidate_id, .. } => vstd::utf8::encode_utf8(
            candidate_id@,
        ).len() <= u64::MAX,
        RaftMessageType::AppendEntries { leader_id, entries, .. } => {
            &&& vstd::utf8::encode_utf8(leader_id@).len() <= u64::MAX
            &&& entries@.len() <= u64::MAX
            &&& (forall|k: int|
                0 <= k < entries@.len() ==> entries@[k].value@.len() <= u64::MAX)
        },
        _ => true,
    }
}

/// Message bodies that replicate the same content: the same variant with
/// equal fields, strings and payloads compared by their characters and
/// bytes.
pub open spec fn body_like(a: RaftMessageType, b: RaftMessageType) -> bool {
    match (a, b) {
        (
            RaftMessageType::RequestVote { candidate_id: c1, last_log_index: i1, last_log_term: t1 },
            RaftMessageType::RequestVote { candidate_id: c2, last_log_index: i2, last_log_term: t2 },
        ) => c1@ == c2@ && i1 == i2 && t1 == t2,
        (
            RaftMessageType::RequestVoteResponse { vote_granted: g1 },
            RaftMessageType::RequestVoteResponse { vote_granted: g2 },
        ) => g1 == g2,
        (
            RaftMessageType::AppendEntries {
                leader_id: l1,
                prev_log_index: p1,
                prev_log_term: q1,
                entries: e1,
                leader_commit: c1,
            },
            RaftMessageType::AppendEntries {
                leader_id: l2,
                prev_log_index: p2,
                prev_log_term: q2,
                entries: e2,
                leader_commit: c2,
            },
        ) => l1@ == l2@ && p1 == p2 && q1 == q2 && c1 == c2 && crate::raft::entries_like(e1@, e2@),
        (
            RaftMessageType::AppendEntriesResponse { success: s1, match_index: m1 },
            RaftMessageType::AppendEntriesResponse { success: s2, match_index: m2 },
        ) => s1 == s2 && m1 == m2,
        (RaftMessageType::Heartbeat, RaftMessageType::Heartbeat) => true,
        _ => false,
    }
}

proof fn lemma_entry_list_injective(e1: Seq<LogEntry>, e2: Seq<LogEntry>)
    requires
        e1.len() == e2.len(),
        forall|k: int| 0 <= k < e1.len() ==> #[trigger] e1[k].value@.len() <= u64::MAX,
        forall|k: int| 0 <= k < e2.len() ==> #[trigger] e2[k].value@.len() <= u64::MAX,
        spec_entry_list(e1) == spec_entry_list(e2),
    ensures
        crate::raft::entries_like(e1, e2),
    decreases e1.len(),
{
    if e1.len() > 0 {
        let f = spec_entry_list(e1);
        let a = e1[0];
        let b = e2[0];
        let la = a.value@.len() as int;
        let lb = b.value@.len() as int;
        assert(f == spec_entry(a) + spec_entry_list(e1.drop_first()));
        assert(f == spec_entry(b) + spec_entry_list(e2.drop_first()));
        assert(f.subrange(0, 8) =~= be8(a.term));
        assert(f.subrange(0, 8) =~= be8(b.term));
        lemma_be_val_of_be8(a.term);
        lemma_be_val_of_be8(b.term);
        assert(f.subrange(8, 16) =~= be8(a.index));
        assert(f.subrange(8, 16) =~= be8(b.index));
        lemma_be_val_of_be8(a.index);
        lemma_be_val_of_be8(b.index);
        assert(f.subrange(16, 24) =~= be8(a.value@.len() as u64));
        assert(f.subrange(16, 24) =~= be8(b.value@.len() as u64));
        lemma_be_val_of_be8(a.value@.len() as u64);
        lemma_be_val_of_be8(b.value@.len() as u64);
        assert(la == lb);
        assert(a.value@ =~= f.subrange(24, 24 + la));
        assert(b.value@ =~= f.subrange(24, 24 + la));
        assert(spec_entry_list(e1.drop_first()) =~= f.subrange(24 + la, f.len() as int));
        assert(spec_entry_list(e2.drop_first()) =~= f.subrange(24 + la, f.len() as int));
        lemma_entry_list_injective(e1.drop_first(), e2.drop_first());
        assert forall|k: int|
            0 <= k < e1.len() implies e1[k].term == e2[k].term && e1[k].index == e2[k].index
            && e1[k].value@ == e2[k].value@ by {
            if k > 0 {
                assert(e1.drop_first()[k - 1] == e1[k]);
                assert(e2.drop_first()[k - 1] == e2[k]);
            }
        }
    }
}

/// Two messages with the same canonical encoding replicate the same
/// content; with `decode_body`'s contract this gives the round trip: the
/// decoding of an encoded body is the body itself.
#[verifier::rlimit(100)]
proof fn lemma_body_injective_request_vote(m1: RaftMessageType, m2: RaftMessageType)
    requires
        m1 is RequestVote,
        m2 is RequestVote,
        body_bounded(m1),
        body_bounded(m2),
        spec_body(m1) == spec_body(m2),
    ensures
        body_like(m1, m2),
{
    let f = spec_body(m1);
    match (m1, m2) {
        (
            RaftMessageType::RequestVote { candidate_id: c1, last_log_index: i1, last_log_term: t1 },
            RaftMessageType::RequestVote { candidate_id: c2, last_log_index: i2, last_log_term: t2 },
        ) => {
            let n1 = vstd::utf8::encode_utf8(c1@).len() as int;
            let n2 = vstd::utf8::encode_utf8(c2@).len() as int;
            assert(f.subrange(1, 9) =~= be8(n1 as u64));
            assert(f.subrange(1, 9) =~= be8(n2 as u64));
            lemma_be_val_of_be8(n1 as u64);
            lemma_be_val_of_be8(n2 as u64);
            assert(n1 == n2);
            assert(vstd::utf8::encode_utf8(c1@) =~= f.subrange(9, 9 + n1));
            assert(vstd::utf8::encode_utf8(c2@) =~= f.subrange(9, 9 + n1));
            vstd::utf8::encode_utf8_decode_utf8(c1@);
            vstd::utf8::encode_utf8_decode_utf8(c2@);
            assert(c1@ == c2@);
            assert(f.subrange(9 + n1, 17 + n1) =~= be8(i1));
            assert(f.subrange(9 + n1, 17 + n1) =~= be8(i2));
            lemma_be_val_of_be8(i1);
            lemma_be_val_of_be8(i2);
            assert(f.subrange(17 + n1, 25 + n1) =~= be8(t1));
            assert(f.subrange(17 + n1, 25 + n1) =~= be8(t2));
            lemma_be_val_of_be8(t1);
            lemma_be_val_of_be8(t2);
        },
        _ => {},
    }
}

#[verifier::rlimit(100)]
proof fn lemma_body_injective_append(m1: RaftMessageType, m2: RaftMessageType)
    requires
        m1 is AppendEntries,
        m2 is AppendEntries,
        body_bounded(m1),
        body_bounded(m2),
        spec_body(m1) == spec_body(m2),
    ensures
        body_like(m1, m2),
{
    let f = spec_body(m1);
    match (m1, m2) {
        (
            RaftMessageType::AppendEntries {
                leader_id: l1,
                prev_log_index: p1,
                prev_log_term: q1,
                entries: e1,
                leader_commit: c1,
            },
            RaftMessageType::AppendEntries {
                leader_id: l2,
                prev_log_index: p2,
                prev_log_term: q2,
                entries: e2,
                leader_commit: c2,
            },
        ) => {
            let n1 = vstd::utf8::encode_utf8(l1@).len() as int;
            let n2 = vstd::utf8::encode_utf8(l2@).len() as int;
            assert(f.subrange(1, 9) =~= be8(n1 as u64));
            assert(f.subrange(1, 9) =~= be8(n2 as u64));
            lemma_be_val_of_be8(n1 as u64);
            lemma_be_val_of_be8(n2 as u64);
            assert(n1 == n2);
            assert(vstd::utf8::encode_utf8(l1@) =~= f.subrange(9, 9 + n1));
            assert(vstd::utf8::encode_utf8(l2@) =~= f.subrange(9, 9 + n1));
            vstd::utf8::encode_utf8_decode_utf8(l1@);
            vstd::utf8::encode_utf8_decode_utf8(l2@);
            assert(l1@ == l2@);
            assert(f.subrange(9 + n1, 17 + n1) =~= be8(p1));
            assert(f.subrange(9 + n1, 17 + n1) =~= be8(p2));
            lemma_be_val_of_be8(p1);
            lemma_be_val_of_be8(p2);
            assert(f.subrange(17 + n1, 25 + n1) =~= be8(q1));
            assert(f.subrange(17 + n1, 25 + n1) =~= be8(q2));
            lemma_be_val_of_be8(q1);
            lemma_be_val_of_be8(q2);
            assert(f.subrange(25 + n1, 33 + n1) =~= be8(c1));
            assert(f.subrange(25 + n1, 33 + n1) =~= be8(c2));
            lemma_be_val_of_be8(c1);
            lemma_be_val_of_be8(c2);
            assert(f.subrange(33 + n1, 41 + n1) =~= be8(e1@.len() as u64));
            assert(f.subrange(33 + n1, 41 + n1) =~= be8(e2@.len() as u64));
            lemma_be_val_of_be8(e1@.len() as u64);
            lemma_be_val_of_be8(e2@.len() as u64);
            assert(e1@.len() == e2@.len());
            assert(spec_entry_list(e1@) =~= f.subrange(41 + n1, f.len() as int));
            assert(spec_entry_list(e2@) =~= f.subrange(41 + n1, f.len() as int));
            lemma_entry_list_injective(e1@, e2@);
        },
        _ => {},
    }
}

/// Two messages with the same canonical encoding replicate the same
/// content; with `decode_body`'s contract this gives the round trip: the
/// decoding of an encoded body is the body itself.
#[verifier::rlimit(100)]
pub proof fn lemma_body_injective(m1: RaftMessageType, m2: RaftMessageType)
    requires
        body_bounded(m1),
        body_bounded(m2),
        spec_body(m1) == spec_body(m2),
    ensures
        body_like(m1, m2),
{
    let f = spec_body(m1);
    assert(m1 is RequestVote ==> f[0] == 1);
    assert(m1 is RequestVoteResponse ==> f[0] == 2);
    assert(m1 is AppendEntries ==> f[0] == 3);
    assert(m1 is AppendEntriesResponse ==> f[0] == 4);
    assert(m1 is Heartbeat ==> f[0] == 5);
    assert(m2 is RequestVote ==> spec_body(m2)[0] == 1);
    assert(m2 is RequestVoteResponse ==> spec_body(m2)[0] == 2);
    assert(m2 is AppendEntries ==> spec_body(m2)[0] == 3);
    assert(m2 is AppendEntriesResponse ==> spec_body(m2)[0] == 4);
    assert(m2 is Heartbeat ==> spec_body(m2)[0] == 5);
    match (m1, m2) {
        (RaftMessageType::RequestVote { .. }, RaftMessageType::RequestVote { .. }) => {
            lemma_body_injective_request_vote(m1, m2);
        },
        (RaftMessageType::AppendEntries { .. }, RaftMessageType::AppendEntries { .. }) => {
            lemma_body_injective_append(m1, m2);
        },
        (
            RaftMessageType::RequestVoteResponse { vote_granted: g1 },
            RaftMessageType::RequestVoteResponse { vote_granted: g2 },
        ) => {
            assert(f[1] == (if g1 {
                1u8
            } else {
                0u8
            }));
            assert(f[1] == (if g2 {
                1u8
            } else {
                0u8
            }));
        },
        (
            RaftMessageType::AppendEntriesResponse { success: s1, match_index: x1 },
            RaftMessageType::AppendEntriesResponse { success: s2, match_index: x2 },
        ) => {
            assert(f[1] == (if s1 {
                1u8
            } else {
                0u8
            }));
            assert(f[1] == (if s2 {
                1u8
            } else {
                0u8
            }));
            assert(f.subrange(2, 10) =~= be8(x1));
            assert(f.subrange(2, 10) =~= be8(x2));
            lemma_be_val_of_be8(x1);
            lemma_be_val_of_be8(x2);
        },
        (RaftMessageType::Heartbeat, RaftMessageType::Heartbeat) => {},
        _ => {
            assert(false);
        },
    }
}

} // verus!