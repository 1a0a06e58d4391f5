use vstd::prelude::*;
use vstd::utf8::encode_utf8;
use vstd::utf8::valid_utf8;

use crate::err::IoErr;
use crate::err::ListError;
use crate::record::record_value;
use crate::text::is_space_byte;
use crate::text::is_space_byte_exec;
use crate::text::lemma_trim_bytes_is_subrange;
use crate::text::trim_bytes;

verus! {

/// Offset of the first newline byte in `s`, or its length if there is
/// none.
pub open spec fn nl_byte_index(s: Seq<u8>) -> nat
    decreases s.len(),
{
    if s.len() == 0 {
        0
    } else if s[0] == 10 {
        0
    } else {
        1 + nl_byte_index(s.drop_first())
    }
}

proof fn lemma_nl_byte_index(s: Seq<u8>)
    ensures
        nl_byte_index(s) <= s.len(),
        nl_byte_index(s) < s.len() ==> s[nl_byte_index(s) as int] == 10,
        forall|j: int| 0 <= j < nl_byte_index(s) ==> s[j] != 10,
    decreases s.len(),
{
    if s.len() == 0 {
    } else if s[0] == 10 {
    } else {
        lemma_nl_byte_index(s.drop_first());
        assert forall|j: int| 0 <= j < nl_byte_index(s) implies s[j] != 10 by {
            if j > 0 {
                assert(s.drop_first()[j - 1] == s[j]);
            }
        }
    }
}

proof fn lemma_nl_byte_index_is(s: Seq<u8>, j: int)
    requires
        0 <= j <= s.len(),
        forall|k: int| 0 <= k < j ==> s[k] != 10,
        j < s.len() ==> s[j] == 10,
    ensures
        nl_byte_index(s) == j,
    decreases s.len(),
{
    if s.len() == 0 {
    } else if s[0] == 10 {
    } else {
        assert forall|k: int| 0 <= k < j - 1 implies s.drop_first()[k] != 10 by {
            assert(s.drop_first()[k] == s[k + 1]);
        }
        lemma_nl_byte_index_is(s.drop_first(), j - 1);
    }
}

/// Offset just past the newline that closes the line opening at
/// `pos`, or the end of `dest` where no newline follows. One read of
/// a recipient line consumes exactly these bytes, newline included.
pub open spec fn line_end_from(dest: Seq<u8>, pos: int) -> int {
    let rel = nl_byte_index(dest.skip(pos));
    if rel < dest.len() - pos {
        pos + rel + 1
    } else {
        dest.len() as int
    }
}

proof fn lemma_line_end_from(dest: Seq<u8>, pos: int)
    requires
        0 <= pos < dest.len(),
    ensures
        pos < line_end_from(dest, pos) <= dest.len(),
{
    lemma_nl_byte_index(dest.skip(pos));
}

/// The runs a delivery pass makes from `cursor`: each step consumes
/// one line (newline included) and records the offset just past it,
/// on and on while the cursor is short of `end`.
pub open spec fn steps_spec(dest: Seq<u8>, cursor: int, end: int) -> Seq<(Seq<u8>, int)>
    decreases dest.len() - cursor,
    when 0 <= cursor && end <= dest.len()
    via steps_spec_dec
{
    if cursor >= end {
        Seq::empty()
    } else {
        let e = line_end_from(dest, cursor);
        seq![(dest.subrange(cursor, e), e)] + steps_spec(dest, e, end)
    }
}

#[via_fn]
proof fn steps_spec_dec(dest: Seq<u8>, cursor: int, end: int) {
    if cursor < end {
        lemma_line_end_from(dest, cursor);
    }
}

/// Law: a cursor that has reached its end makes no step at all — a
/// job snapshotted over an empty roster, or one already finished, is
/// only cleaned up, never handed to transport.
pub proof fn lemma_no_work_when_done(dest: Seq<u8>, cursor: int, end: int)
    requires
        0 <= cursor,
        end <= dest.len(),
        cursor >= end,
    ensures
        steps_spec(dest, cursor, end) == Seq::<(Seq<u8>, int)>::empty(),
{
}

/// Every step's recorded cursor moves forward and stays inside the
/// snapshot.
pub proof fn lemma_steps_cursors(dest: Seq<u8>, cursor: int, end: int)
    requires
        0 <= cursor,
        end <= dest.len(),
    ensures
        forall|k: int|
            0 <= k < steps_spec(dest, cursor, end).len() ==> cursor < #[trigger] steps_spec(
                dest,
                cursor,
                end,
            )[k].1 <= dest.len(),
    decreases dest.len() - cursor,
{
    if cursor < end {
        lemma_line_end_from(dest, cursor);
        let e = line_end_from(dest, cursor);
        lemma_steps_cursors(dest, e, end);
        assert forall|k: int|
            0 <= k < steps_spec(dest, cursor, end).len() implies cursor < #[trigger] steps_spec(
            dest,
            cursor,
            end,
        )[k].1 <= dest.len() by {
            if k > 0 {
                assert(steps_spec(dest, cursor, end)[k] == steps_spec(dest, e, end)[k - 1]);
            }
        }
    }
}

/// Law: resumption is exact. The steps taken from the cursor that any
/// step persisted are precisely the steps that followed it in the
/// full run: a recipient before the persisted cursor is never
/// revisited, and none after it is skipped.
pub proof fn lemma_resume_is_suffix(dest: Seq<u8>, cursor: int, end: int, k: int)
    requires
        0 <= cursor,
        end <= dest.len(),
        0 <= k < steps_spec(dest, cursor, end).len(),
    ensures
        steps_spec(dest, steps_spec(dest, cursor, end)[k].1, end) == steps_spec(
            dest,
            cursor,
            end,
        ).skip(k + 1),
    decreases k,
{
    lemma_line_end_from(dest, cursor);
    let e = line_end_from(dest, cursor);
    let whole = steps_spec(dest, cursor, end);
    assert(whole == seq![(dest.subrange(cursor, e), e)] + steps_spec(dest, e, end));
    if k == 0 {
        assert(whole[0].1 == e);
        assert(whole.skip(1) =~= steps_spec(dest, e, end));
    } else {
        lemma_steps_cursors(dest, e, end);
        lemma_resume_is_suffix(dest, e, end, k - 1);
        assert(whole[k] == steps_spec(dest, e, end)[k - 1]);
        assert(whole.skip(k + 1) =~= steps_spec(dest, e, end).skip(k));
    }
}

/// The lines of a run of steps, in order, as one byte string.
pub open spec fn lines_concat(steps: Seq<(Seq<u8>, int)>) -> Seq<u8>
    decreases steps.len(),
{
    if steps.len() == 0 {
        Seq::empty()
    } else {
        steps[0].0 + lines_concat(steps.drop_first())
    }
}

/// The cursor standing after a run: where it started if nothing was
/// to do, else what the last step records.
pub open spec fn final_cursor(steps: Seq<(Seq<u8>, int)>, cursor: int) -> int {
    if steps.len() == 0 {
        cursor
    } else {
        steps.last().1
    }
}

/// Law: the lines of one pass tile the snapshot without gap or
/// overlap — their concatenation is exactly the bytes from the
/// starting cursor to the cursor the last step records, so nothing
/// outside the snapshot is ever handed to transport and nothing
/// inside the range is passed over.
pub proof fn lemma_steps_tile_snapshot(dest: Seq<u8>, cursor: int, end: int)
    requires
        0 <= cursor <= dest.len(),
        end <= dest.len(),
    ensures
        lines_concat(steps_spec(dest, cursor, end)) == dest.subrange(
            cursor,
            final_cursor(steps_spec(dest, cursor, end), cursor),
        ),
        cursor <= final_cursor(steps_spec(dest, cursor, end), cursor) <= dest.len(),
    decreases dest.len() - cursor,
{
    let steps = steps_spec(dest, cursor, end);
    if cursor >= end {
        assert(dest.subrange(cursor, cursor) =~= Seq::<u8>::empty());
    } else {
        lemma_line_end_from(dest, cursor);
        let e = line_end_from(dest, cursor);
        let rest = steps_spec(dest, e, end);
        lemma_steps_tile_snapshot(dest, e, end);
        assert(steps.drop_first() =~= rest);
        let fc = final_cursor(steps, cursor);
        assert(fc == final_cursor(rest, e)) by {
            if rest.len() > 0 {
                assert(steps.last() == rest.last());
            }
        }
        assert(dest.subrange(cursor, e) + dest.subrange(e, fc) =~= dest.subrange(cursor, fc));
    }
}

/// Law: the recipients a delivery reaches are frozen in the snapshot.
/// A snapshot holding a single newline-terminated entry yields
/// exactly one step, whose line is the whole snapshot; an address
/// subscribed after the snapshot was taken belongs to no step of it.
pub proof fn lemma_snapshot_sole_recipient(dest: Seq<u8>)
    requires
        dest.len() > 0,
        dest.last() == 10,
        forall|i: int| 0 <= i < dest.len() - 1 ==> dest[i] != 10,
    ensures
        steps_spec(dest, 0, dest.len() as int) == seq![(dest, dest.len() as int)],
{
    let n = dest.len() as int;
    assert(dest.skip(0) =~= dest);
    lemma_nl_byte_index_is(dest, n - 1);
    assert(line_end_from(dest, 0) == n);
    assert(dest.subrange(0, n) =~= dest);
    assert(steps_spec(dest, n, n) =~= Seq::<(Seq<u8>, int)>::empty());
    assert(steps_spec(dest, 0, n) =~= seq![(dest, n)]);
}

/// Relies on std::str::from_utf8: it accepts exactly the valid UTF-8
/// byte strings, and decodes such bytes to the characters that encode
/// back to them.
#[verifier::external_body]
fn bytes_to_string(b: &[u8]) -> (r: Result<String, ListError>)
    ensures
        r matches Ok(s) ==> valid_utf8(b@) && encode_utf8(s@) == b@,
        r is Err ==> !valid_utf8(b@),
{
    match std::str::from_utf8(b) {
        Ok(s) => Ok(s.to_owned()),
        Err(e) => Err(ListError { message: e.to_string() }),
    }
}

/// One delivery pass over a job: the frozen recipient snapshot, the
/// cursor of bytes already consumed, and the snapshot length recorded
/// at enqueue time. The caller walks it with `next`, sending to each
/// recipient and persisting the advanced cursor before going on.
pub struct DeliveryJob {
    pub dest: Vec<u8>,
    pub cursor: u64,
    pub end: u64,
}

impl DeliveryJob {
    /// Both offsets stay inside the snapshot.
    pub open spec fn wf(self) -> bool {
        self.cursor <= self.dest@.len() && self.end <= self.dest@.len()
    }

    /// Take up a job read back from disk. A record whose cursor runs
    /// past its end, or whose end runs past the snapshot, is corrupt
    /// and refused.
    pub fn new(dest: Vec<u8>, cursor: u64, end: u64) -> (r: Result<DeliveryJob, ListError>)
        ensures
            (cursor <= end && end as nat <= dest@.len()) ==> (r matches Ok(j) && j.dest@ == dest@
                && j.cursor == cursor && j.end == end && j.wf()),
            !(cursor <= end && end as nat <= dest@.len()) ==> r is Err,
    {
        if cursor > end {
            return Err(ListError::new(String::from_str("cursor past end of job")));
        }
        if end > dest.len() as u64 {
            return Err(ListError::new(String::from_str("job record longer than snapshot")));
        }
        Ok(DeliveryJob { dest, cursor, end })
    }

    /// Whether every recipient has been consumed.
    pub fn done(&self) -> (r: bool)
        ensures
            r == (self.cursor >= self.end),
    {
        self.cursor >= self.end
    }

    /// The bytes consumed so far, as the record on disk counts them.
    pub fn cursor_value(&self) -> (r: u64)
        ensures
            r == self.cursor,
    {
        self.cursor
    }

    /// Hand out the next recipient and advance the cursor past its
    /// line. Nothing is left to do once the cursor reaches the end. A
    /// line that is not valid text is an error, and the cursor stays
    /// where it was, so a retry resumes at the failed line.
    pub fn next(&mut self) -> (r: Result<Option<String>, ListError>)
        requires
            old(self).wf(),
        ensures
            final(self).wf(),
            final(self).dest@ == old(self).dest@,
            final(self).end == old(self).end,
            old(self).cursor >= old(self).end ==> (r matches Ok(o) && o is None
                && final(self).cursor == old(self).cursor),
            old(self).cursor < old(self).end ==> (match r {
                Ok(o) => (o matches Some(s) && valid_utf8(
                    trim_bytes(
                        old(self).dest@.subrange(
                            old(self).cursor as int,
                            line_end_from(old(self).dest@, old(self).cursor as int),
                        ),
                    ),
                ) && encode_utf8(s@) == trim_bytes(
                    old(self).dest@.subrange(
                        old(self).cursor as int,
                        line_end_from(old(self).dest@, old(self).cursor as int),
                    ),
                ) && final(self).cursor == line_end_from(
                    old(self).dest@,
                    old(self).cursor as int,
                ) && final(self).cursor > old(self).cursor),
                Err(_) => !valid_utf8(
                    trim_bytes(
                        old(self).dest@.subrange(
                            old(self).cursor as int,
                            line_end_from(old(self).dest@, old(self).cursor as int),
                        ),
                    ),
                ) && final(self).cursor == old(self).cursor,
            }),
    {
        if self.cursor >= self.end {
            return Ok(None);
        }
        let start = self.cursor as usize;
        let n = self.dest.len();
        let ghost dest = self.dest@;
        let mut j = start;
        while j < n && self.dest[j] != 10
            invariant
                start <= j <= n,
                n == dest.len(),
                dest == self.dest@,
                forall|k: int| start <= k < j ==> dest[k] != 10,
            decreases n - j,
        {
            j = j + 1;
        }
        let e = if j < n {
            j + 1
        } else {
            n
        };
        proof {
            let rest = dest.skip(start as int);
            assert forall|k: int| 0 <= k < j - start implies rest[k] != 10 by {
                assert(rest[k] == dest[start + k]);
            }
            if j < n {
                assert(rest[j - start] == dest[j as int]);
            }
            lemma_nl_byte_index_is(rest, j - start);
            assert(line_end_from(dest, start as int) == e);
        }
        let mut lo = start;
        while lo < e && is_space_byte_exec(self.dest[lo])
            invariant
                start <= lo <= e <= n,
                n == dest.len(),
                dest == self.dest@,
                forall|k: int| start <= k < lo ==> is_space_byte(#[trigger] dest[k]),
            decreases e - lo,
        {
            lo = lo + 1;
        }
        let mut hi = e;
        while hi > lo && is_space_byte_exec(self.dest[hi - 1])
            invariant
                lo <= hi <= e <= n,
                n == dest.len(),
                dest == self.dest@,
                forall|k: int| hi <= k < e ==> is_space_byte(#[trigger] dest[k]),
            decreases hi,
        {
            hi = hi - 1;
        }
        let mut line: Vec<u8> = Vec::new();
        let mut k = lo;
        while k < hi
            invariant
                lo <= k <= hi <= n,
                n == dest.len(),
                dest == self.dest@,
                line@ == dest.subrange(lo as int, k as int),
            decreases hi - k,
        {
            line.push(self.dest[k]);
            proof {
                assert(dest.subrange(lo as int, k as int).push(dest[k as int]) =~= dest.subrange(
                    lo as int,
                    k as int + 1,
                ));
            }
            k = k + 1;
        }
        proof {
            let full = dest.subrange(start as int, e as int);
            assert forall|i: int| 0 <= i < lo - start implies is_space_byte(
                #[trigger] full[i],
            ) by {
                assert(full[i] == dest[start + i]);
            }
            assert forall|i: int| hi - start <= i < full.len() implies is_space_byte(
                #[trigger] full[i],
            ) by {
                assert(full[i] == dest[start + i]);
            }
            if (lo as int) < hi as int {
                assert(full[lo - start] == dest[lo as int]);
                assert(full[hi - start - 1] == dest[hi as int - 1]);
            }
            if lo == hi {
                assert forall|i: int| 0 <= i < full.len() implies is_space_byte(
                    #[trigger] full[i],
                ) by {
                    assert(full[i] == dest[start + i]);
                }
            }
            lemma_trim_bytes_is_subrange(full, lo - start, hi - start);
            assert(full.subrange(lo - start, hi - start) =~= dest.subrange(lo as int, hi as int));
            assert(line@ == trim_bytes(full));
        }
        match bytes_to_string(line.as_slice()) {
            Ok(s) => {
                self.cursor = e as u64;
                Ok(Some(s))
            },
            Err(err) => Err(err),
        }
    }
}

/// The re-entry check of a delivery attempt. A position file that no
/// longer exists means some other attempt finished the job: success,
/// with nothing left to do. An existing record is decoded; any other
/// failure propagates.
pub fn resume_decision(pos_read: Result<Vec<u8>, IoErr>) -> (r: Result<
    Option<(u64, u64)>,
    ListError,
>)
    ensures
        match pos_read {
            Err(IoErr::NotFound) => r matches Ok(o) && o is None,
            Err(IoErr::Other(_)) => r is Err,
            Ok(bytes) => match record_value(bytes@) {
                Some(p) => r matches Ok(o) && o matches Some(q) && q == p,
                None => r is Err,
            },
        },
{
    match pos_read {
        Err(IoErr::NotFound) => Ok(None),
        Err(IoErr::Other(m)) => Err(ListError { message: m }),
        Ok(bytes) => match crate::record::decode_record(bytes.as_slice()) {
            Ok(p) => Ok(Some(p)),
            Err(e) => Err(e),
        },
    }
}

} // verus!
