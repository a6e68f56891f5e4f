//! The export text format and its parser.
//!
//! Each record is one line: the id in decimal, a space, the name as a
//! length-prefixed field (`length:content`), a space, the email likewise,
//! and a newline. The length prefix lets a field carry any character, even
//! spaces, colons or newlines, so parsing an export restores exactly the
//! records that produced it.

use vstd::prelude::*;

use crate::num::{
    dec_digits, dec_val, digit_run_len, is_digit_char, lemma_dec_digits_shape,
    lemma_dec_val_of_digits, lemma_digit_run_bounds, lemma_digit_run_of_prefix, push_decimal,
    read_decimal, scan_digits,
};
use crate::record::{Record, RecordData, views_of};

verus! {

/// A length-prefixed text field: the length in decimal, a colon, the text.
pub open spec fn encode_text(t: Seq<char>) -> Seq<char> {
    dec_digits(t.len()) + seq![':'] + t
}

/// One record as one line: id, space, name field, space, email field,
/// newline.
pub open spec fn encode_record(r: RecordData) -> Seq<char> {
    dec_digits(r.id as nat) + seq![' '] + encode_text(r.name) + seq![' '] + encode_text(r.email)
        + seq!['\n']
}

/// A record sequence as consecutive lines.
pub open spec fn encode_records(rs: Seq<RecordData>) -> Seq<char>
    decreases rs.len(),
{
    if rs.len() == 0 {
        Seq::empty()
    } else {
        encode_record(rs[0]) + encode_records(rs.skip(1))
    }
}

/// Reads a length-prefixed field from the front of `s`: the field's text
/// and how many characters it spanned.
pub open spec fn parse_text(s: Seq<char>) -> Option<(Seq<char>, int)> {
    let d = digit_run_len(s);
    let n = dec_val(s.take(d));
    if d == 0 {
        None
    } else if !(d < s.len() && s[d] == ':') {
        None
    } else if n > s.len() - (d + 1) {
        None
    } else {
        Some((s.skip(d + 1).take(n), d + 1 + n))
    }
}

/// Reads one record line from the front of `s`: the record and how many
/// characters it spanned. The id must fit in `u32`.
pub open spec fn parse_record(s: Seq<char>) -> Option<(RecordData, int)> {
    let d = digit_run_len(s);
    let idv = dec_val(s.take(d));
    if d == 0 || idv > u32::MAX as int {
        None
    } else if !(d < s.len() && s[d] == ' ') {
        None
    } else {
        match parse_text(s.skip(d + 1)) {
            None => None,
            Some((name, k1)) => {
                let p1 = d + 1 + k1;
                if !(p1 < s.len() && s[p1] == ' ') {
                    None
                } else {
                    match parse_text(s.skip(p1 + 1)) {
                        None => None,
                        Some((email, k2)) => {
                            let p2 = p1 + 1 + k2;
                            if !(p2 < s.len() && s[p2] == '\n') {
                                None
                            } else {
                                Some((RecordData { id: idv as u32, name, email }, p2 + 1))
                            }
                        },
                    }
                }
            },
        }
    }
}

/// Reads a whole export: every line in order, or `None` when the text is
/// malformed or anything is left over.
pub open spec fn parse_records(s: Seq<char>) -> Option<Seq<RecordData>>
    decreases s.len(),
{
    if s.len() == 0 {
        Some(Seq::empty())
    } else {
        match parse_record(s) {
            None => None,
            Some((r, k)) => if 0 < k <= s.len() {
                match parse_records(s.skip(k)) {
                    None => None,
                    Some(rest) => Some(seq![r] + rest),
                }
            } else {
                None
            },
        }
    }
}

/// Parsing a field back out of its own encoding yields the original text
/// and consumes exactly the encoding, whatever follows it.
pub proof fn lemma_parse_text_of_encode(t: Seq<char>, rest: Seq<char>)
    ensures
        parse_text(encode_text(t) + rest) == Some((t, encode_text(t).len() as int)),
{
    let a = dec_digits(t.len());
    let tail = seq![':'] + t + rest;
    let s = encode_text(t) + rest;
    assert(s =~= a + tail);
    lemma_dec_digits_shape(t.len());
    assert(!is_digit_char(tail[0]));
    lemma_digit_run_of_prefix(a, tail);
    let d = digit_run_len(s);
    assert(d == a.len());
    assert(s.take(d) =~= a);
    lemma_dec_val_of_digits(t.len());
    assert(dec_val(s.take(d)) == t.len());
    assert(s[d] == tail[0]);
    assert(s[d] == ':');
    assert(s.skip(d + 1) =~= t + rest);
    assert(s.skip(d + 1).take(t.len() as int) =~= t);
    assert(encode_text(t).len() == d + 1 + t.len());
}

/// Parsing a record line back out of its own encoding yields the original
/// record and consumes exactly the encoding, whatever follows it.
pub proof fn lemma_parse_record_of_encode(r: RecordData, rest: Seq<char>)
    ensures
        parse_record(encode_record(r) + rest) == Some((r, encode_record(r).len() as int)),
        encode_record(r).len() >= 1,
{
    let a = dec_digits(r.id as nat);
    let en = encode_text(r.name);
    let ee = encode_text(r.email);
    let s = encode_record(r) + rest;
    let tail = seq![' '] + en + seq![' '] + ee + seq!['\n'] + rest;
    assert(s =~= a + tail);
    lemma_dec_digits_shape(r.id as nat);
    assert(!is_digit_char(tail[0]));
    lemma_digit_run_of_prefix(a, tail);
    let d = digit_run_len(s);
    assert(d == a.len());
    assert(s.take(d) =~= a);
    lemma_dec_val_of_digits(r.id as nat);
    assert(dec_val(s.take(d)) == r.id as int);
    assert(s[d] == tail[0]);
    assert(s[d] == ' ');
    assert(s.skip(d + 1) =~= en + (seq![' '] + ee + seq!['\n'] + rest));
    lemma_parse_text_of_encode(r.name, seq![' '] + ee + seq!['\n'] + rest);
    let k1 = en.len() as int;
    assert(parse_text(s.skip(d + 1)) == Some((r.name, k1)));
    let p1 = d + 1 + k1;
    assert(s[p1] == s.skip(d + 1)[k1]);
    assert(s.skip(d + 1)[k1] == (seq![' '] + ee + seq!['\n'] + rest)[0]);
    assert(s[p1] == ' ');
    assert(s.skip(p1 + 1) =~= ee + (seq!['\n'] + rest));
    lemma_parse_text_of_encode(r.email, seq!['\n'] + rest);
    let k2 = ee.len() as int;
    assert(parse_text(s.skip(p1 + 1)) == Some((r.email, k2)));
    let p2 = p1 + 1 + k2;
    assert(s[p2] == s.skip(p1 + 1)[k2]);
    assert(s.skip(p1 + 1)[k2] == (seq!['\n'] + rest)[0]);
    assert(s[p2] == '\n');
    assert(encode_record(r).len() == p2 + 1);
    assert((dec_val(s.take(d)) as u32) == r.id);
}

/// The export format round-trips: parsing the encoding of any record
/// sequence yields exactly that sequence.
pub proof fn lemma_parse_of_encode(rs: Seq<RecordData>)
    ensures
        parse_records(encode_records(rs)) == Some(rs),
    decreases rs.len(),
{
    let s = encode_records(rs);
    if rs.len() == 0 {
        assert(rs =~= Seq::<RecordData>::empty());
    } else {
        let head = encode_record(rs[0]);
        let tail = encode_records(rs.skip(1));
        assert(s == head + tail);
        lemma_parse_record_of_encode(rs[0], tail);
        let k = head.len() as int;
        assert(s.len() > 0);
        assert(parse_record(s) == Some((rs[0], k)));
        assert(0 < k <= s.len());
        assert(s.skip(k) =~= tail);
        lemma_parse_of_encode(rs.skip(1));
        assert(parse_records(s.skip(k)) == Some(rs.skip(1)));
        assert(seq![rs[0]] + rs.skip(1) =~= rs);
    }
}

/// Appending one record to a sequence appends its line to the encoding.
pub proof fn lemma_encode_records_push(p: Seq<RecordData>, x: RecordData)
    ensures
        encode_records(p.push(x)) == encode_records(p) + encode_record(x),
    decreases p.len(),
{
    let q = p.push(x);
    assert(q.len() == p.len() + 1);
    assert(encode_records(q) == encode_record(q[0]) + encode_records(q.skip(1)));
    if p.len() == 0 {
        assert(q.skip(1) =~= Seq::<RecordData>::empty());
        assert(encode_records(q.skip(1)) == Seq::<char>::empty());
        assert(q[0] == x);
        assert(encode_records(p) == Seq::<char>::empty());
        assert(encode_record(x) + Seq::<char>::empty() =~= encode_record(x));
        assert(Seq::<char>::empty() + encode_record(x) =~= encode_record(x));
    } else {
        assert(q.skip(1) =~= p.skip(1).push(x));
        lemma_encode_records_push(p.skip(1), x);
        assert(q[0] == p[0]);
        assert(encode_records(p) == encode_record(p[0]) + encode_records(p.skip(1)));
        assert(encode_record(p[0]) + (encode_records(p.skip(1)) + encode_record(x)) =~= (
        encode_record(p[0]) + encode_records(p.skip(1))) + encode_record(x));
    }
}

/// Appends the length-prefixed form of `t` to `out`.
fn append_text_field(out: &mut String, t: &str)
    ensures
        final(out)@ == old(out)@ + encode_text(t@),
{
    let len = t.unicode_len();
    push_decimal(out, len);
    out.append(":");
    out.append(t);
    proof {
        reveal_strlit(":");
        assert(out@ =~= old(out)@ + encode_text(t@));
    }
}

/// Appends the export line of `rec` to `out`.
fn append_record_line(out: &mut String, rec: &Record)
    ensures
        final(out)@ == old(out)@ + encode_record(rec@),
{
    let id = rec.id as usize;
    proof {
        assert(id as nat == rec.id as nat);
    }
    push_decimal(out, id);
    out.append(" ");
    append_text_field(out, rec.name.as_str());
    out.append(" ");
    append_text_field(out, rec.email.as_str());
    out.append("\n");
    proof {
        reveal_strlit(" ");
        reveal_strlit("\n");
        assert(out@ =~= old(out)@ + encode_record(rec@));
    }
}

/// Writes every record as its export line, in order.
pub fn render_records(records: &Vec<Record>) -> (out: String)
    ensures
        out@ == encode_records(views_of(records@)),
{
    let ghost rows = views_of(records@);
    let mut out = String::new();
    proof {
        assert(rows.take(0) =~= Seq::<RecordData>::empty());
        assert(out@ =~= encode_records(rows.take(0)));
    }
    let mut i: usize = 0;
    while i < records.len()
        invariant
            i <= records.len(),
            rows == views_of(records@),
            rows.len() == records@.len(),
            out@ == encode_records(rows.take(i as int)),
        decreases records.len() - i,
    {
        append_record_line(&mut out, &records[i]);
        proof {
            assert(rows[i as int] == records@[i as int]@);
            lemma_encode_records_push(rows.take(i as int), rows[i as int]);
            assert(rows.take(i + 1) =~= rows.take(i as int).push(rows[i as int]));
        }
        i += 1;
    }
    proof {
        assert(rows.take(records@.len() as int) =~= rows);
    }
    out
}

/// Reads one length-prefixed field starting at `pos`: the field's text and
/// the position just past it.
fn read_text_field(s: &str, pos: usize, len: usize) -> (r: Option<(String, usize)>)
    requires
        len == s@.len(),
        pos <= len,
    ensures
        match r {
            Some(tn) => {
                &&& parse_text(s@.skip(pos as int)) == Some((tn.0@, tn.1 as int - pos as int))
                &&& pos < tn.1 <= len
            },
            None => parse_text(s@.skip(pos as int)) is None,
        },
{
    let ghost su = s@.skip(pos as int);
    let dend = scan_digits(s, pos, len);
    let ghost d = dend as int - pos as int;
    proof {
        lemma_digit_run_bounds(su);
        assert forall|i: int| pos <= i < dend implies is_digit_char(#[trigger] s@[i]) by {
            assert(is_digit_char(su[i - pos]));
        }
        assert(su.take(d) =~= s@.subrange(pos as int, dend as int));
    }
    if dend == pos {
        return None;
    }
    let n_opt = read_decimal(s, pos, dend);
    if dend >= len {
        return None;
    }
    proof {
        assert(su[d] == s@[dend as int]);
    }
    let c = s.get_char(dend);
    if c != ':' {
        return None;
    }
    match n_opt {
        None => {
            proof {
                assert(su.len() == len - pos);
            }
            None
        },
        Some(n) => {
            let after = dend + 1;
            if n > len - after {
                proof {
                    assert(su.len() - (d + 1) == len - after);
                }
                return None;
            }
            let t = s.substring_char(after, after + n);
            let owned = String::from_str(t);
            proof {
                assert(su.skip(d + 1) =~= s@.subrange(after as int, len as int));
                assert(su.skip(d + 1).take(n as int) =~= s@.subrange(
                    after as int,
                    after + n,
                ));
            }
            Some((owned, after + n))
        },
    }
}

/// Reads one record line starting at `pos`: the record and the position
/// just past its newline.
fn read_record_line(s: &str, pos: usize, len: usize) -> (r: Option<(Record, usize)>)
    requires
        len == s@.len(),
        pos <= len,
    ensures
        match r {
            Some(rn) => {
                &&& parse_record(s@.skip(pos as int)) == Some((rn.0@, rn.1 as int - pos as int))
                &&& pos < rn.1 <= len
            },
            None => parse_record(s@.skip(pos as int)) is None,
        },
{
    let ghost su = s@.skip(pos as int);
    let dend = scan_digits(s, pos, len);
    let ghost d = dend as int - pos as int;
    proof {
        lemma_digit_run_bounds(su);
        assert forall|i: int| pos <= i < dend implies is_digit_char(#[trigger] s@[i]) by {
            assert(is_digit_char(su[i - pos]));
        }
        assert(su.take(d) =~= s@.subrange(pos as int, dend as int));
    }
    if dend == pos {
        return None;
    }
    let idv = match read_decimal(s, pos, dend) {
        None => {
            return None;
        },
        Some(v) => v,
    };
    if idv > u32::MAX as usize {
        return None;
    }
    if dend >= len {
        return None;
    }
    proof {
        assert(su[d] == s@[dend as int]);
    }
    if s.get_char(dend) != ' ' {
        return None;
    }
    proof {
        assert(su.skip(d + 1) =~= s@.skip(dend + 1));
    }
    let (name, p1) = match read_text_field(s, dend + 1, len) {
        None => {
            return None;
        },
        Some(x) => x,
    };
    let ghost k1 = p1 as int - (dend + 1);
    if p1 >= len {
        return None;
    }
    proof {
        assert(su[d + 1 + k1] == s@[p1 as int]);
    }
    if s.get_char(p1) != ' ' {
        return None;
    }
    proof {
        assert(su.skip(d + 1 + k1 + 1) =~= s@.skip(p1 + 1));
    }
    let (email, p2) = match read_text_field(s, p1 + 1, len) {
        None => {
            return None;
        },
        Some(x) => x,
    };
    let ghost k2 = p2 as int - (p1 + 1);
    if p2 >= len {
        return None;
    }
    proof {
        assert(su[d + 1 + k1 + 1 + k2] == s@[p2 as int]);
    }
    if s.get_char(p2) != '\n' {
        return None;
    }
    let rec = Record { id: idv as u32, name, email };
    Some((rec, p2 + 1))
}

/// Parses an export back into records: every line in order, or `None`
/// exactly when the specification-level parser rejects the text.
pub fn parse_export(s: &str) -> (r: Option<Vec<Record>>)
    ensures
        match r {
            Some(v) => parse_records(s@) == Some(views_of(v@)),
            None => parse_records(s@) is None,
        },
{
    let len = s.unicode_len();
    let mut out: Vec<Record> = Vec::new();
    let mut pos: usize = 0;
    proof {
        assert(s@.skip(0) =~= s@);
        assert(views_of(out@) + parse_records(s@)->Some_0 =~= parse_records(s@)->Some_0);
    }
    loop
        invariant
            pos <= len,
            len == s@.len(),
            match parse_records(s@.skip(pos as int)) {
                Some(rest) => parse_records(s@) == Some(views_of(out@) + rest),
                None => parse_records(s@) is None,
            },
        decreases len - pos,
    {
        if pos == len {
            proof {
                assert(s@.skip(pos as int).len() == 0);
                assert(views_of(out@) + Seq::<RecordData>::empty() =~= views_of(out@));
            }
            return Some(out);
        }
        match read_record_line(s, pos, len) {
            None => {
                proof {
                    assert(s@.skip(pos as int).len() > 0);
                }
                return None;
            },
            Some((rec, next)) => {
                let ghost su = s@.skip(pos as int);
                let ghost prev = out@;
                let ghost k = next as int - pos as int;
                proof {
                    assert(su.len() > 0);
                    assert(0 < k <= su.len());
                    assert(su.skip(k) =~= s@.skip(next as int));
                }
                out.push(rec);
                pos = next;
                proof {
                    assert(views_of(out@) =~= views_of(prev).push(rec@));
                    match parse_records(s@.skip(pos as int)) {
                        Some(rest) => {
                            assert(parse_records(su) == Some(seq![rec@] + rest));
                            assert(views_of(prev) + (seq![rec@] + rest) =~= views_of(out@)
                                + rest);
                        },
                        None => {
                            assert(parse_records(su) is None);
                        },
                    }
                }
            },
        }
    }
}

} // verus!
