//! The byte form in which cells and shards are written out and read back:
//! each record's bytes followed by one newline byte. Records are lines,
//! so a record never holds the terminator itself; reading tolerates a
//! trailing run of bytes without a terminator and counts it as one record.

use crate::records::lemma_records_deep_view;
use vstd::prelude::*;

verus! {

/// The line terminator that closes every record on disk.
pub const NEWLINE: u8 = 10;

/// The encoded form of a record group: the records in order, each
/// followed by one newline byte.
pub open spec fn encoded(rs: Seq<Seq<u8>>) -> Seq<u8>
    decreases rs.len(),
{
    if rs.len() == 0 {
        Seq::<u8>::empty()
    } else {
        encoded(rs.drop_last()) + rs.last() + seq![NEWLINE]
    }
}

/// The records a byte sequence parses into: the bytes before each
/// newline form one record; trailing bytes without a terminator still
/// form one record.
pub open spec fn decoded(bs: Seq<u8>) -> Seq<Seq<u8>>
    decreases bs.len(),
{
    if bs.len() == 0 {
        Seq::<Seq<u8>>::empty()
    } else if bs.first() == NEWLINE {
        seq![Seq::<u8>::empty()] + decoded(bs.drop_first())
    } else {
        let rest = decoded(bs.drop_first());
        if rest.len() == 0 {
            seq![seq![bs.first()]]
        } else {
            seq![seq![bs.first()] + rest.first()] + rest.drop_first()
        }
    }
}

/// A partial record `pending`, read so far without its terminator, glued
/// onto the records still to come.
pub open spec fn glue(pending: Seq<u8>, rest: Seq<Seq<u8>>) -> Seq<Seq<u8>> {
    if pending.len() == 0 {
        rest
    } else if rest.len() == 0 {
        seq![pending]
    } else {
        seq![pending + rest.first()] + rest.drop_first()
    }
}

/// Reading one more ordinary byte extends the pending record.
proof fn lemma_glue_extend(pending: Seq<u8>, b: u8, rest: Seq<Seq<u8>>)
    ensures
        glue(pending, glue(seq![b], rest)) == glue(pending.push(b), rest),
{
    assert(pending.push(b) =~= pending + seq![b]);
    if pending.len() == 0 {
        assert(pending + seq![b] =~= seq![b]);
    } else if rest.len() == 0 {
        assert(seq![pending + seq![b]] =~= seq![pending.push(b)]);
    } else {
        assert(glue(seq![b], rest) == seq![seq![b] + rest.first()] + rest.drop_first());
        assert(glue(seq![b], rest).len() > 0);
        assert(glue(seq![b], rest).first() == seq![b] + rest.first());
        assert(glue(seq![b], rest).drop_first() =~= rest.drop_first());
        assert(pending + (seq![b] + rest.first()) =~= pending.push(b) + rest.first());
        assert(seq![pending + (seq![b] + rest.first())] + rest.drop_first() =~= seq![pending.push(
            b,
        ) + rest.first()] + rest.drop_first());
    }
}

/// Write a record group in its byte form.
pub fn encode_records(recs: &Vec<Vec<u8>>) -> (out: Vec<u8>)
    ensures
        out@ == encoded(recs.deep_view()),
{
    proof {
        lemma_records_deep_view(*recs);
    }
    let mut out: Vec<u8> = Vec::new();
    let mut i: usize = 0;
    proof {
        assert(recs.deep_view().subrange(0, 0) =~= Seq::<Seq<u8>>::empty());
    }
    while i < recs.len()
        invariant
            i <= recs@.len(),
            recs.deep_view().len() == recs@.len(),
            forall|j: int| 0 <= j < recs@.len() ==> recs.deep_view()[j] == recs@[j]@,
            out@ == encoded(recs.deep_view().subrange(0, i as int)),
        decreases recs@.len() - i,
    {
        let ghost out0 = out@;
        out.extend_from_slice(recs[i].as_slice());
        out.push(NEWLINE);
        proof {
            let dv = recs.deep_view();
            assert(dv.subrange(0, i + 1).drop_last() =~= dv.subrange(0, i as int));
            assert(dv.subrange(0, i + 1).last() == dv[i as int]);
            assert(out@ =~= encoded(dv.subrange(0, i as int)) + dv[i as int] + seq![NEWLINE]);
        }
        i = i + 1;
    }
    proof {
        assert(recs.deep_view().subrange(0, recs@.len() as int) =~= recs.deep_view());
    }
    out
}

/// Read a record group back from its byte form.
pub fn decode_records(bytes: &Vec<u8>) -> (recs: Vec<Vec<u8>>)
    ensures
        recs.deep_view() == decoded(bytes@),
{
    let mut recs: Vec<Vec<u8>> = Vec::new();
    let mut cur: Vec<u8> = Vec::new();
    let mut i: usize = 0;
    proof {
        lemma_records_deep_view(recs);
        assert(recs.deep_view() =~= Seq::<Seq<u8>>::empty());
        assert(bytes@.subrange(0, bytes@.len() as int) =~= bytes@);
        assert(decoded(bytes@) =~= recs.deep_view() + glue(
            cur@,
            decoded(bytes@.subrange(0, bytes@.len() as int)),
        ));
    }
    while i < bytes.len()
        invariant
            i <= bytes@.len(),
            decoded(bytes@) == recs.deep_view() + glue(
                cur@,
                decoded(bytes@.subrange(i as int, bytes@.len() as int)),
            ),
        decreases bytes@.len() - i,
    {
        let ghost recs0 = recs;
        let ghost cur0 = cur;
        let ghost rem = bytes@.subrange(i as int, bytes@.len() as int);
        let ghost rem2 = bytes@.subrange(i + 1, bytes@.len() as int);
        let b = bytes[i];
        proof {
            assert(rem.len() > 0);
            assert(rem.first() == b);
            assert(rem.drop_first() =~= rem2);
        }
        if b == NEWLINE {
            recs.push(cur);
            cur = Vec::new();
            proof {
                lemma_records_deep_view(recs0);
                lemma_records_deep_view(recs);
                assert(recs.deep_view() =~= recs0.deep_view().push(cur0@));
                assert(decoded(rem) == seq![Seq::<u8>::empty()] + decoded(rem2));
                if cur0@.len() == 0 {
                    assert(cur0@ =~= Seq::<u8>::empty());
                    assert(glue(cur0@, decoded(rem)) =~= seq![cur0@] + decoded(rem2));
                } else {
                    assert(decoded(rem).first() == Seq::<u8>::empty());
                    assert(cur0@ + Seq::<u8>::empty() =~= cur0@);
                    assert(decoded(rem).drop_first() =~= decoded(rem2));
                    assert(glue(cur0@, decoded(rem)) =~= seq![cur0@] + decoded(rem2));
                }
                assert(recs0.deep_view() + (seq![cur0@] + decoded(rem2)) =~= recs.deep_view()
                    + glue(cur@, decoded(rem2)));
            }
        } else {
            cur.push(b);
            proof {
                assert(decoded(rem) == glue(seq![b], decoded(rem2)));
                lemma_glue_extend(cur0@, b, decoded(rem2));
            }
        }
        i = i + 1;
    }
    proof {
        assert(bytes@.subrange(bytes@.len() as int, bytes@.len() as int) =~= Seq::<u8>::empty());
        assert(decoded(Seq::<u8>::empty()) =~= Seq::<Seq<u8>>::empty());
    }
    if cur.len() > 0 {
        let ghost recs0 = recs;
        recs.push(cur);
        proof {
            lemma_records_deep_view(recs0);
            lemma_records_deep_view(recs);
            assert(recs.deep_view() =~= recs0.deep_view().push(cur@));
            assert(recs0.deep_view() + glue(cur@, Seq::<Seq<u8>>::empty()) =~= recs.deep_view());
        }
    } else {
        proof {
            assert(recs.deep_view() + glue(cur@, Seq::<Seq<u8>>::empty()) =~= recs.deep_view());
        }
    }
    recs
}

/// Unfolding an encoding front record first.
proof fn lemma_encoded_drop_first(rs: Seq<Seq<u8>>)
    requires
        rs.len() > 0,
    ensures
        encoded(rs) == rs.first() + seq![NEWLINE] + encoded(rs.drop_first()),
    decreases rs.len(),
{
    if rs.len() == 1 {
        assert(rs.drop_last() =~= Seq::<Seq<u8>>::empty());
        assert(rs.drop_first() =~= Seq::<Seq<u8>>::empty());
        assert(rs.last() == rs.first());
        assert(Seq::<u8>::empty() + rs.first() + seq![NEWLINE] =~= rs.first() + seq![NEWLINE]
            + Seq::<u8>::empty());
    } else {
        lemma_encoded_drop_first(rs.drop_last());
        assert(rs.drop_last().first() == rs.first());
        assert(rs.drop_last().drop_first() =~= rs.drop_first().drop_last());
        assert(rs.drop_first().last() == rs.last());
        assert((rs.first() + seq![NEWLINE] + encoded(rs.drop_first().drop_last())) + rs.last()
            + seq![NEWLINE] =~= rs.first() + seq![NEWLINE] + (encoded(rs.drop_first().drop_last())
            + rs.last() + seq![NEWLINE]));
    }
}

/// Reading one terminated record off the front of a byte stream.
proof fn lemma_decoded_line(r: Seq<u8>, tail: Seq<u8>)
    requires
        !r.contains(NEWLINE),
    ensures
        decoded(r + seq![NEWLINE] + tail) == seq![r] + decoded(tail),
    decreases r.len(),
{
    let bs = r + seq![NEWLINE] + tail;
    if r.len() == 0 {
        assert(bs.first() == NEWLINE);
        assert(bs.drop_first() =~= tail);
        assert(r =~= Seq::<u8>::empty());
        assert(seq![Seq::<u8>::empty()] + decoded(tail) =~= seq![r] + decoded(tail));
    } else {
        assert(bs.first() == r.first());
        assert(r.first() != NEWLINE) by {
            assert(r[0] == r.first());
        }
        assert(bs.drop_first() =~= r.drop_first() + seq![NEWLINE] + tail);
        assert(!r.drop_first().contains(NEWLINE)) by {
            assert forall|j: int| 0 <= j < r.drop_first().len() implies r.drop_first()[j]
                != NEWLINE by {
                assert(r.drop_first()[j] == r[j + 1]);
            }
        }
        lemma_decoded_line(r.drop_first(), tail);
        let rest = decoded(r.drop_first() + seq![NEWLINE] + tail);
        assert(rest == seq![r.drop_first()] + decoded(tail));
        assert(rest.len() > 0);
        assert(rest.first() == r.drop_first());
        assert(rest.drop_first() =~= decoded(tail));
        assert(seq![r.first()] + r.drop_first() =~= r);
        assert(seq![seq![bs.first()] + rest.first()] + rest.drop_first() =~= seq![r] + decoded(
            tail,
        ));
    }
}

/// Writing a record group out and reading it back gives the group back,
/// record for record, provided no record holds the line terminator —
/// records are lines, so none does.
pub proof fn lemma_decode_encode(rs: Seq<Seq<u8>>)
    requires
        forall|i: int| 0 <= i < rs.len() ==> !(#[trigger] rs[i]).contains(NEWLINE),
    ensures
        decoded(encoded(rs)) == rs,
    decreases rs.len(),
{
    if rs.len() == 0 {
        assert(decoded(encoded(rs)) =~= rs);
    } else {
        lemma_encoded_drop_first(rs);
        assert(!rs.first().contains(NEWLINE)) by {
            assert(rs.first() == rs[0]);
        }
        lemma_decoded_line(rs.first(), encoded(rs.drop_first()));
        let dropped = rs.drop_first();
        assert forall|i: int| 0 <= i < dropped.len() implies !(#[trigger] dropped[i]).contains(
            NEWLINE,
        ) by {
            assert(dropped[i] == rs[i + 1]);
        }
        lemma_decode_encode(rs.drop_first());
        assert(seq![rs.first()] + rs.drop_first() =~= rs);
    }
}

} // verus!
