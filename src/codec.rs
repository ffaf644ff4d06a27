//! The file format: one record per line, key and value separated by the
//! first tab character, each line ended by a newline.

use vstd::prelude::*;
use crate::records::{
    RecordView, has_key, keys_unique, map_of, record_view, records_view, upsert,
    upsert_record,
};

verus! {

/// Why a text could not be read as a store.
#[derive(Debug, Clone, Copy, PartialEq, Eq, Structural)]
pub enum CodecError {
    /// A non-empty line holds no tab character.
    CorruptRecord,
}

/// The lines of `t`: the pieces between newline characters, in order. A text
/// that ends in a newline has an empty last piece.
pub open spec fn split_lines(t: Seq<char>) -> Seq<Seq<char>>
    decreases t.len(),
{
    if t.len() == 0 {
        seq![Seq::empty()]
    } else {
        let p = split_lines(t.drop_last());
        if t.last() == '\n' {
            p.push(Seq::empty())
        } else {
            p.update(p.len() - 1, p.last().push(t.last()))
        }
    }
}

/// The position of the first tab of `l` at or after `i`, if any.
pub open spec fn tab_from(l: Seq<char>, i: int) -> Option<int>
    decreases l.len() - i,
{
    if i < 0 || i >= l.len() {
        None
    } else if l[i] == '\t' {
        Some(i)
    } else {
        tab_from(l, i + 1)
    }
}

/// A line read as a record: the key before the first tab, the value after
/// it. A line without a tab is no record.
pub open spec fn parse_line(l: Seq<char>) -> Option<RecordView> {
    match tab_from(l, 0) {
        Some(p) => Some((l.take(p), l.skip(p + 1))),
        None => None,
    }
}

/// One line applied to the records read so far: an empty line is skipped,
/// a record is upserted, anything else spoils the whole text.
pub open spec fn apply_line(rs: Seq<RecordView>, l: Seq<char>) -> Option<Seq<RecordView>> {
    if l.len() == 0 {
        Some(rs)
    } else {
        match parse_line(l) {
            Some(r) => Some(upsert(rs, r.0, r.1)),
            None => None,
        }
    }
}

/// The records of a list of lines, read from first to last.
pub open spec fn decode_lines(ls: Seq<Seq<char>>) -> Option<Seq<RecordView>>
    decreases ls.len(),
{
    if ls.len() == 0 {
        Some(Seq::empty())
    } else {
        match decode_lines(ls.drop_last()) {
            Some(rs) => apply_line(rs, ls.last()),
            None => None,
        }
    }
}

/// The records that a text holds, or `None` where it is corrupt.
pub open spec fn decode_spec(t: Seq<char>) -> Option<Seq<RecordView>> {
    decode_lines(split_lines(t))
}

/// The line that stores one record.
pub open spec fn record_line(r: RecordView) -> Seq<char> {
    r.0 + seq!['\t'] + r.1 + seq!['\n']
}

/// The text that stores a list of records, in their order.
pub open spec fn encode_spec(rs: Seq<RecordView>) -> Seq<char>
    decreases rs.len(),
{
    if rs.len() == 0 {
        Seq::empty()
    } else {
        encode_spec(rs.drop_last()) + record_line(rs.last())
    }
}

proof fn lemma_split_lines_nonempty(t: Seq<char>)
    ensures
        split_lines(t).len() >= 1,
    decreases t.len(),
{
    if t.len() > 0 {
        lemma_split_lines_nonempty(t.drop_last());
    }
}

/// Copies the characters of `text` into a vector.
fn chars_of(text: &str) -> (r: Vec<char>)
    ensures
        r@ == text@,
{
    let mut r: Vec<char> = Vec::new();
    for c in it: text.chars()
        invariant
            r@ == it.seq().take(it.index() as int),
    {
        r.push(c);
    }
    assert(r@ =~= text@);
    r
}

/// The position of the first tab among `chars[start..end]`, if any.
fn find_tab(chars: &Vec<char>, start: usize, end: usize) -> (r: Option<usize>)
    requires
        start <= end <= chars@.len(),
    ensures
        match r {
            Some(j) => tab_from(chars@.subrange(start as int, end as int), 0) == Some(j - start),
            None => tab_from(chars@.subrange(start as int, end as int), 0) is None,
        },
        r matches Some(p) ==> start <= p < end && chars@[p as int] == '\t',
{
    let ghost l = chars@.subrange(start as int, end as int);
    let mut j: usize = start;
    while j < end
        invariant
            start <= j <= end <= chars@.len(),
            l == chars@.subrange(start as int, end as int),
            tab_from(l, 0) == tab_from(l, j - start),
        decreases end - j,
    {
        if chars[j] == '\t' {
            assert(l[j - start] == '\t');
            return Some(j);
        }
        j = j + 1;
    }
    None
}

/// Applies the line `text[start..end]` to `records`; false where the line is
/// corrupt.
fn apply_line_exec(
    text: &str,
    chars: &Vec<char>,
    start: usize,
    end: usize,
    records: &mut Vec<(String, String)>,
) -> (ok: bool)
    requires
        chars@ == text@,
        start <= end <= chars@.len(),
        keys_unique(records_view(old(records)@)),
    ensures
        ok == apply_line(records_view(old(records)@), text@.subrange(start as int, end as int)) is Some,
        ok ==> apply_line(records_view(old(records)@), text@.subrange(start as int, end as int))
            == Some(records_view(final(records)@)),
        keys_unique(records_view(final(records)@)),
{
    let ghost l = text@.subrange(start as int, end as int);
    if start == end {
        return true;
    }
    match find_tab(chars, start, end) {
        None => false,
        Some(p) => {
            let key = String::from_str(text.substring_char(start, p));
            let value = String::from_str(text.substring_char(p + 1, end));
            assert(l == chars@.subrange(start as int, end as int));
            assert(tab_from(l, 0) == Some(p - start));
            assert(key@ =~= l.take(p - start));
            assert(value@ =~= l.skip(p - start + 1));
            assert(parse_line(l) == Some((key@, value@)));
            upsert_record(records, key, value);
            true
        },
    }
}

/// Reads a text as a list of records. Empty lines are skipped; a later record
/// overrides an earlier one with the same key; a non-empty line without a tab
/// fails the whole text.
pub fn decode(text: &str) -> (r: Result<Vec<(String, String)>, CodecError>)
    ensures
        match r {
            Ok(v) => decode_spec(text@) == Some(records_view(v@)),
            Err(e) => decode_spec(text@) is None && e == CodecError::CorruptRecord,
        },
        r is Ok ==> keys_unique(records_view(r->Ok_0@)),
{
    let chars = chars_of(text);
    let n = chars.len();
    let ghost t = text@;
    let ghost mut done: Seq<Seq<char>> = Seq::empty();
    let mut records: Vec<(String, String)> = Vec::new();
    let mut corrupt = false;
    let mut start: usize = 0;
    let mut i: usize = 0;
    assert(t.take(0) =~= Seq::<char>::empty());
    assert(split_lines(t.take(0)) =~= done.push(t.subrange(0, 0)));
    while i < n
        invariant
            chars@ == t,
            t == text@,
            n == t.len(),
            start <= i <= n,
            split_lines(t.take(i as int)) == done.push(t.subrange(start as int, i as int)),
            corrupt ==> decode_lines(done) is None,
            !corrupt ==> decode_lines(done) == Some(records_view(records@)),
            keys_unique(records_view(records@)),
        decreases n - i,
    {
        let ghost p = split_lines(t.take(i as int));
        let ghost ti = t.take(i + 1);
        assert(ti.drop_last() =~= t.take(i as int));
        assert(ti.last() == chars@[i as int]);
        if chars[i] == '\n' {
            let ghost line = t.subrange(start as int, i as int);
            if !corrupt {
                let ok = apply_line_exec(text, &chars, start, i, &mut records);
                corrupt = !ok;
            }
            proof {
                assert(done.push(line).drop_last() =~= done);
                done = done.push(line);
                assert(split_lines(ti) == p.push(Seq::empty()));
            }
            start = i + 1;
            assert(t.subrange(start as int, i + 1) =~= Seq::<char>::empty());
            assert(split_lines(ti) =~= done.push(t.subrange(start as int, i + 1)));
        } else {
            assert(t.subrange(start as int, i + 1) =~= t.subrange(start as int, i as int).push(
                t[i as int],
            ));
            assert(split_lines(ti) =~= done.push(t.subrange(start as int, i + 1)));
        }
        i = i + 1;
    }
    assert(t.take(n as int) =~= t);
    let ghost line = t.subrange(start as int, n as int);
    assert(done.push(line).drop_last() =~= done);
    if corrupt {
        return Err(CodecError::CorruptRecord);
    }
    let ok = apply_line_exec(text, &chars, start, n, &mut records);
    if ok {
        Ok(records)
    } else {
        Err(CodecError::CorruptRecord)
    }
}

/// Writes a list of records as text, one `key<TAB>value` line per record in
/// their order. Nothing is escaped.
pub fn encode(records: &Vec<(String, String)>) -> (r: String)
    ensures
        r@ == encode_spec(records_view(records@)),
{
    let ghost rs = records_view(records@);
    let mut out = String::new();
    let n = records.len();
    let mut i: usize = 0;
    proof {
        assert(rs.take(0) =~= Seq::<RecordView>::empty());
    }
    while i < n
        invariant
            n == records@.len(),
            rs == records_view(records@),
            i <= n,
            out@ == encode_spec(rs.take(i as int)),
        decreases n - i,
    {
        let ghost before = out@;
        out.append(records[i].0.as_str());
        out.append("\t");
        out.append(records[i].1.as_str());
        out.append("\n");
        proof {
            reveal_strlit("\t");
            reveal_strlit("\n");
            assert(rs.take(i + 1).drop_last() =~= rs.take(i as int));
            assert(rs[i as int] == record_view(records@[i as int]));
            assert(out@ =~= before + record_line(rs[i as int]));
        }
        i = i + 1;
    }
    assert(rs.take(n as int) =~= rs);
    out
}

/// `s` holds neither a tab nor a newline.
pub open spec fn plain_text(s: Seq<char>) -> bool {
    forall|i: int| 0 <= i < s.len() ==> s[i] != '\t' && s[i] != '\n'
}

/// Every key and value of `rs` is plain text.
pub open spec fn plain_records(rs: Seq<RecordView>) -> bool {
    forall|i: int| #![trigger rs[i]] 0 <= i < rs.len() ==> plain_text(rs[i].0) && plain_text(rs[i].1)
}

/// A line that spoils a text: not empty, and without a tab.
pub open spec fn corrupt_line(l: Seq<char>) -> bool {
    l.len() > 0 && tab_from(l, 0) is None
}

/// The lines of `rs` without their newlines.
pub open spec fn record_bodies(rs: Seq<RecordView>) -> Seq<Seq<char>> {
    rs.map_values(|r: RecordView| r.0 + seq!['\t'] + r.1)
}

proof fn lemma_split_no_newline(a: Seq<char>, b: Seq<char>)
    requires
        forall|i: int| 0 <= i < b.len() ==> b[i] != '\n',
    ensures
        split_lines(a + b) == split_lines(a).update(
            split_lines(a).len() - 1,
            split_lines(a).last() + b,
        ),
    decreases b.len(),
{
    lemma_split_lines_nonempty(a);
    if b.len() == 0 {
        assert(a + b =~= a);
        assert(split_lines(a).last() + b =~= split_lines(a).last());
        assert(split_lines(a).update(split_lines(a).len() - 1, split_lines(a).last())
            =~= split_lines(a));
    } else {
        let b0 = b.drop_last();
        lemma_split_no_newline(a, b0);
        assert((a + b).drop_last() =~= a + b0);
        assert((a + b).last() == b.last());
        assert((split_lines(a).last() + b0).push(b.last()) =~= split_lines(a).last() + b);
        assert(split_lines(a + b) =~= split_lines(a).update(
            split_lines(a).len() - 1,
            split_lines(a).last() + b,
        ));
    }
}

proof fn lemma_split_push_newline(x: Seq<char>)
    ensures
        split_lines(x.push('\n')) == split_lines(x).push(Seq::empty()),
{
    assert(x.push('\n').drop_last() =~= x);
}

proof fn lemma_plain_drop_last(rs: Seq<RecordView>)
    requires
        plain_records(rs),
        rs.len() > 0,
    ensures
        plain_records(rs.drop_last()),
        plain_text(rs.last().0),
        plain_text(rs.last().1),
{
    let p = rs.drop_last();
    assert forall|i: int| #![trigger p[i]] 0 <= i < p.len() implies plain_text(p[i].0)
        && plain_text(p[i].1) by {
        assert(p[i] == rs[i]);
    }
    assert(plain_text(rs[rs.len() - 1].0));
}

proof fn lemma_body_no_newline(r: RecordView)
    requires
        plain_text(r.0),
        plain_text(r.1),
    ensures
        forall|i: int|
            0 <= i < (r.0 + seq!['\t'] + r.1).len() ==> (r.0 + seq!['\t'] + r.1)[i] != '\n',
{
    let body = r.0 + seq!['\t'] + r.1;
    assert forall|i: int| 0 <= i < body.len() implies body[i] != '\n' by {
        if i < r.0.len() {
        } else if i > r.0.len() {
            assert(body[i] == r.1[i - r.0.len() - 1]);
        }
    }
}

proof fn lemma_split_encode(rs: Seq<RecordView>)
    requires
        plain_records(rs),
    ensures
        split_lines(encode_spec(rs)) == record_bodies(rs).push(Seq::empty()),
    decreases rs.len(),
{
    if rs.len() == 0 {
        assert(split_lines(encode_spec(rs)) =~= record_bodies(rs).push(Seq::empty()));
    } else {
        let p = rs.drop_last();
        let r = rs.last();
        lemma_plain_drop_last(rs);
        lemma_split_encode(p);
        let body = r.0 + seq!['\t'] + r.1;
        let e = encode_spec(p);
        lemma_body_no_newline(r);
        lemma_split_no_newline(e, body);
        lemma_split_lines_nonempty(e);
        assert(Seq::<char>::empty() + body =~= body);
        assert(split_lines(e + body) =~= record_bodies(p).push(body));
        assert(encode_spec(rs) =~= (e + body).push('\n'));
        lemma_split_push_newline(e + body);
        assert(record_bodies(rs) =~= record_bodies(p).push(body));
    }
}

proof fn lemma_tab_from_first(l: Seq<char>, i: int, p: int)
    requires
        0 <= i <= p < l.len(),
        l[p] == '\t',
        forall|q: int| i <= q < p ==> l[q] != '\t',
    ensures
        tab_from(l, i) == Some(p),
    decreases p - i,
{
    if i < p {
        lemma_tab_from_first(l, i + 1, p);
    }
}

proof fn lemma_decode_bodies(rs: Seq<RecordView>)
    requires
        plain_records(rs),
        keys_unique(rs),
    ensures
        decode_lines(record_bodies(rs)) == Some(rs),
    decreases rs.len(),
{
    if rs.len() > 0 {
        let p = rs.drop_last();
        let r = rs.last();
        let n = rs.len() - 1;
        lemma_plain_drop_last(rs);
        assert(record_bodies(rs).drop_last() =~= record_bodies(p));
        lemma_decode_bodies(p);
        let body = r.0 + seq!['\t'] + r.1;
        assert(record_bodies(rs).last() == body);
        lemma_tab_from_first(body, 0, r.0.len() as int);
        assert(body.take(r.0.len() as int) =~= r.0);
        assert(body.skip(r.0.len() as int + 1) =~= r.1);
        assert(!has_key(p, r.0)) by {
            if has_key(p, r.0) {
                let i = choose|i: int| 0 <= i < p.len() && p[i].0 == r.0;
                assert(rs[i].0 == rs[n].0);
            }
        }
        assert(upsert(p, r.0, r.1) =~= rs);
    }
}

/// Round-trip law: text written from records with unique keys, whose keys and
/// values hold no tab and no newline, reads back as the same records, hence
/// as the same mapping.
pub proof fn lemma_round_trip(rs: Seq<RecordView>)
    requires
        plain_records(rs),
        keys_unique(rs),
    ensures
        decode_spec(encode_spec(rs)) == Some(rs),
        map_of(decode_spec(encode_spec(rs))->0) == map_of(rs),
{
    lemma_split_encode(rs);
    lemma_decode_bodies(rs);
    let ls = record_bodies(rs).push(Seq::empty());
    assert(ls.drop_last() =~= record_bodies(rs));
}

/// Corruption law: a text fails to decode exactly when one of its lines is
/// not empty and holds no tab.
pub proof fn lemma_corrupt_text(t: Seq<char>)
    ensures
        decode_spec(t) is None <==> exists|i: int|
            0 <= i < split_lines(t).len() && corrupt_line(#[trigger] split_lines(t)[i]),
{
    lemma_decode_lines_corrupt(split_lines(t));
}

proof fn lemma_decode_lines_corrupt(ls: Seq<Seq<char>>)
    ensures
        decode_lines(ls) is None <==> exists|i: int| 0 <= i < ls.len() && corrupt_line(#[trigger] ls[i]),
    decreases ls.len(),
{
    if ls.len() > 0 {
        let p = ls.drop_last();
        lemma_decode_lines_corrupt(p);
        if exists|i: int| 0 <= i < p.len() && corrupt_line(#[trigger] p[i]) {
            let i = choose|i: int| 0 <= i < p.len() && corrupt_line(#[trigger] p[i]);
            assert(ls[i] == p[i]);
        }
        if exists|i: int| 0 <= i < ls.len() && corrupt_line(#[trigger] ls[i]) {
            let i = choose|i: int| 0 <= i < ls.len() && corrupt_line(#[trigger] ls[i]);
            if i < ls.len() - 1 {
                assert(ls[i] == p[i]);
            }
        }
    }
}

} // verus!
