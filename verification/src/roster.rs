use vstd::prelude::*;
use vstd::string::StrSliceExecFns;
use vstd::string::StringExecFns;

use crate::addr::line_matches;
use crate::addr::norm_of;
use crate::addr::line_has_single;
use crate::addr::parse_addr;
use crate::err::ListError;
use crate::text::str_eq;
use crate::text::trim_chars;
use crate::text::trim_str;

verus! {

/// Offset of the first newline in `s`, or its length if there is none.
pub open spec fn nl_index(s: Seq<char>) -> nat
    decreases s.len(),
{
    if s.len() == 0 {
        0
    } else if s[0] == '\n' {
        0
    } else {
        1 + nl_index(s.drop_first())
    }
}

proof fn lemma_nl_index(s: Seq<char>)
    ensures
        nl_index(s) <= s.len(),
        nl_index(s) < s.len() ==> s[nl_index(s) as int] == '\n',
        forall|j: int| 0 <= j < nl_index(s) ==> s[j] != '\n',
    decreases s.len(),
{
    if s.len() == 0 {
    } else if s[0] == '\n' {
    } else {
        lemma_nl_index(s.drop_first());
        assert forall|j: int| 0 <= j < nl_index(s) implies s[j] != '\n' by {
            if j > 0 {
                assert(s.drop_first()[j - 1] == s[j]);
            }
        }
    }
}

proof fn lemma_nl_index_is(s: Seq<char>, j: int)
    requires
        0 <= j <= s.len(),
        forall|k: int| 0 <= k < j ==> s[k] != '\n',
        j < s.len() ==> s[j] == '\n',
    ensures
        nl_index(s) == j,
    decreases s.len(),
{
    if s.len() == 0 {
    } else if s[0] == '\n' {
    } else {
        assert forall|k: int| 0 <= k < j - 1 implies s.drop_first()[k] != '\n' by {
            assert(s.drop_first()[k] == s[k + 1]);
        }
        lemma_nl_index_is(s.drop_first(), j - 1);
    }
}

/// A line as the roster reader hands it out: the closing carriage
/// return goes with the newline that followed it.
pub open spec fn strip_cr(l: Seq<char>) -> Seq<char> {
    if l.len() > 0 && l.last() == '\r' {
        l.drop_last()
    } else {
        l
    }
}

/// The lines of the roster file, read as the store reads them: split
/// at each newline, a carriage return before a newline dropped with
/// it, and a last unterminated line kept as it stands.
pub open spec fn roster_lines(s: Seq<char>) -> Seq<Seq<char>>
    decreases s.len(),
{
    if s.len() == 0 {
        Seq::empty()
    } else {
        let i = nl_index(s);
        if i < s.len() {
            seq![strip_cr(s.subrange(0, i as int))] + roster_lines(
                s.subrange(i as int + 1, s.len() as int),
            )
        } else {
            seq![s]
        }
    }
}

pub open spec fn lines_rep(v: Seq<String>) -> Seq<Seq<char>> {
    v.map_values(|s: String| s@)
}

/// Split roster text into its lines.
pub fn split_lines(content: &str) -> (r: Vec<String>)
    ensures
        lines_rep(r@) == roster_lines(content@),
{
    let n = content.unicode_len();
    let mut out: Vec<String> = Vec::new();
    let mut pos: usize = 0;
    let mut j: usize = 0;
    proof {
        assert(content@.skip(0) =~= content@);
        assert(lines_rep(out@) + roster_lines(content@) =~= roster_lines(content@));
    }
    while j < n
        invariant
            pos <= j <= n,
            n == content@.len(),
            forall|k: int| pos <= k < j ==> content@[k] != '\n',
            lines_rep(out@) + roster_lines(content@.skip(pos as int)) == roster_lines(content@),
        decreases n - j,
    {
        if content.get_char(j) == '\n' {
            let line_end = if j > pos && content.get_char(j - 1) == '\r' {
                j - 1
            } else {
                j
            };
            let piece = content.substring_char(pos, line_end);
            let owned = piece.to_owned();
            proof {
                let rest = content@.skip(pos as int);
                assert forall|k: int| 0 <= k < j - pos implies rest[k] != '\n' by {
                    assert(rest[k] == content@[pos + k]);
                }
                assert(rest[j - pos] == '\n');
                lemma_nl_index_is(rest, j - pos);
                assert(rest.subrange(0, j - pos) =~= content@.subrange(pos as int, j as int));
                assert(rest.subrange(
                    j - pos + 1,
                    rest.len() as int,
                ) =~= content@.skip(j as int + 1));
                assert(strip_cr(content@.subrange(pos as int, j as int)) =~= piece@);
                assert(roster_lines(rest) == seq![piece@] + roster_lines(
                    content@.skip(j as int + 1),
                ));
                assert(lines_rep(out@.push(owned)) =~= lines_rep(out@) + seq![piece@]);
                assert(lines_rep(out@.push(owned)) + roster_lines(content@.skip(j as int + 1))
                    =~= roster_lines(content@));
            }
            out.push(owned);
            pos = j + 1;
        }
        j = j + 1;
    }
    if pos < n {
        let piece = content.substring_char(pos, n);
        let owned = piece.to_owned();
        proof {
            let rest = content@.skip(pos as int);
            assert forall|k: int| 0 <= k < rest.len() implies rest[k] != '\n' by {
                assert(rest[k] == content@[pos + k]);
            }
            lemma_nl_index_is(rest, rest.len() as int);
            assert(roster_lines(rest) == seq![rest]);
            assert(piece@ =~= rest);
            assert(lines_rep(out@.push(owned)) =~= lines_rep(out@) + seq![rest]);
            assert(lines_rep(out@.push(owned)) =~= roster_lines(content@));
        }
        out.push(owned);
    } else {
        proof {
            assert(content@.skip(pos as int) =~= Seq::<char>::empty());
            assert(lines_rep(out@) =~= roster_lines(content@));
        }
    }
    out
}

/// One pass over roster lines looking for the mailbox `t`: found,
/// absent, or stopped by the first line that does not parse.
pub open spec fn scan_lines(lines: Seq<Seq<char>>, t: Seq<char>) -> Option<bool>
    decreases lines.len(),
{
    if lines.len() == 0 {
        Some(false)
    } else {
        match line_matches(lines[0], t) {
            None => None,
            Some(true) => Some(true),
            Some(false) => scan_lines(lines.drop_first(), t),
        }
    }
}

/// Whether the roster text `content` holds a subscription for
/// `address`. The query is reduced to its normalized mailbox and each
/// roster line is parsed the same way; equality is on the normalized
/// address alone. An unparseable query, or an unparseable line met
/// before a match, is an error.
pub fn roster_is_subscribed(content: &str, address: &str) -> (r: Result<bool, ListError>)
    ensures
        match norm_of(address@) {
            None => r is Err,
            Some(t) => match scan_lines(roster_lines(content@), t) {
                None => r is Err,
                Some(b) => r matches Ok(x) && x == b,
            },
        },
{
    let target = match parse_addr(address) {
        Ok(t) => t,
        Err(e) => {
            return Err(e);
        },
    };
    let lines = split_lines(content);
    let ghost rep = lines_rep(lines@);
    proof {
        assert(rep.skip(0) =~= rep);
    }
    let mut i: usize = 0;
    while i < lines.len()
        invariant
            i <= lines.len(),
            rep == lines_rep(lines@),
            rep == roster_lines(content@),
            rep.len() == lines@.len(),
            norm_of(address@) == Some(target@),
            scan_lines(rep, target@) == scan_lines(rep.skip(i as int), target@),
        decreases lines.len() - i,
    {
        proof {
            assert(rep.skip(i as int)[0] == rep[i as int]);
            assert(rep[i as int] == lines@[i as int]@);
            assert(rep.skip(i as int).drop_first() =~= rep.skip(i as int + 1));
        }
        match line_has_single(lines[i].as_str(), target.as_str()) {
            Err(e) => {
                return Err(e);
            },
            Ok(true) => {
                return Ok(true);
            },
            Ok(false) => {},
        }
        i = i + 1;
    }
    proof {
        assert(rep.skip(i as int) =~= Seq::<Seq<char>>::empty());
    }
    Ok(false)
}

/// What `subscribe` must append to the roster: nothing where the
/// address is already subscribed, otherwise its own line. The
/// membership check runs first, so an unparseable roster line or
/// query is an error and nothing is written.
pub fn roster_subscribe(content: &str, address: &str) -> (r: Result<Option<String>, ListError>)
    ensures
        match norm_of(address@) {
            None => r is Err,
            Some(t) => match scan_lines(roster_lines(content@), t) {
                None => r is Err,
                Some(true) => r matches Ok(o) && o is None,
                Some(false) => r matches Ok(o) && o matches Some(d) && d@ == address@
                    + seq!['\n'],
            },
        },
{
    match roster_is_subscribed(content, address) {
        Err(e) => Err(e),
        Ok(true) => Ok(None),
        Ok(false) => {
            let mut delta = address.to_owned();
            delta.append("\n");
            proof {
                reveal_strlit("\n");
                assert(delta@ =~= address@ + seq!['\n']);
            }
            Ok(Some(delta))
        },
    }
}

/// The roster text after removing `address`: every line whose trimmed
/// spelling is exactly `address` is dropped, every other line is kept
/// trimmed, each closed by a newline. Matching here is on the written
/// line, not the normalized mailbox.
pub open spec fn unsub_content(lines: Seq<Seq<char>>, address: Seq<char>) -> Seq<char>
    decreases lines.len(),
{
    if lines.len() == 0 {
        Seq::empty()
    } else {
        (if trim_chars(lines[0]) == address {
            Seq::empty()
        } else {
            trim_chars(lines[0]) + seq!['\n']
        }) + unsub_content(lines.drop_first(), address)
    }
}

/// The replacement roster text that `unsubscribe` writes over the old
/// file.
pub fn roster_unsubscribe(content: &str, address: &str) -> (r: String)
    ensures
        r@ == unsub_content(roster_lines(content@), address@),
{
    let lines = split_lines(content);
    let ghost rep = lines_rep(lines@);
    let mut out = String::new();
    proof {
        assert(rep.skip(0) =~= rep);
        assert(out@ + unsub_content(rep, address@) =~= unsub_content(rep, address@));
    }
    let mut i: usize = 0;
    while i < lines.len()
        invariant
            i <= lines.len(),
            rep == lines_rep(lines@),
            rep == roster_lines(content@),
            rep.len() == lines@.len(),
            out@ + unsub_content(rep.skip(i as int), address@) == unsub_content(rep, address@),
        decreases lines.len() - i,
    {
        proof {
            assert(rep.skip(i as int)[0] == rep[i as int]);
            assert(rep[i as int] == lines@[i as int]@);
            assert(rep.skip(i as int).drop_first() =~= rep.skip(i as int + 1));
        }
        let trimmed = trim_str(lines[i].as_str());
        if !str_eq(trimmed, address) {
            out.append(trimmed);
            out.append("\n");
            proof {
                reveal_strlit("\n");
                assert("\n"@ =~= seq!['\n']);
            }
        }
        proof {
            assert(out@ + unsub_content(rep.skip(i as int + 1), address@) =~= unsub_content(
                rep,
                address@,
            ));
        }
        i = i + 1;
    }
    proof {
        assert(rep.skip(i as int) =~= Seq::<Seq<char>>::empty());
        assert(out@ =~= unsub_content(rep, address@));
    }
    out
}

/// A scan that cleared a prefix of the roster goes on through what
/// follows it.
proof fn lemma_scan_append(l1: Seq<Seq<char>>, l2: Seq<Seq<char>>, t: Seq<char>)
    requires
        scan_lines(l1, t) == Some(false),
    ensures
        scan_lines(l1 + l2, t) == scan_lines(l2, t),
    decreases l1.len(),
{
    if l1.len() == 0 {
        assert(l1 + l2 =~= l2);
    } else {
        assert((l1 + l2)[0] == l1[0]);
        assert((l1 + l2).drop_first() =~= l1.drop_first() + l2);
        lemma_scan_append(l1.drop_first(), l2, t);
    }
}

/// A scan that answers `false` has parsed every line and matched none.
proof fn lemma_scan_all_false(lines: Seq<Seq<char>>, t: Seq<char>)
    requires
        scan_lines(lines, t) == Some(false),
    ensures
        forall|i: int|
            0 <= i < lines.len() ==> line_matches(#[trigger] lines[i], t) == Some(false),
    decreases lines.len(),
{
    if lines.len() > 0 {
        lemma_scan_all_false(lines.drop_first(), t);
        assert forall|i: int|
            0 <= i < lines.len() implies line_matches(#[trigger] lines[i], t) == Some(
            false,
        ) by {
            if i > 0 {
                assert(lines.drop_first()[i - 1] == lines[i]);
            }
        }
    }
}

/// Appending one newline-terminated entry to a newline-terminated
/// roster appends exactly one line to its reading.
proof fn lemma_roster_lines_append(c: Seq<char>, a: Seq<char>)
    requires
        c.len() == 0 || c.last() == '\n',
        forall|i: int| 0 <= i < a.len() ==> a[i] != '\n',
        a.len() == 0 || a.last() != '\r',
    ensures
        roster_lines(c + a + seq!['\n']) == roster_lines(c) + seq![a],
    decreases c.len(),
{
    let s = c + a + seq!['\n'];
    if c.len() == 0 {
        assert forall|k: int| 0 <= k < a.len() implies s[k] != '\n' by {
            assert(s[k] == a[k]);
        }
        assert(s[a.len() as int] == '\n');
        lemma_nl_index_is(s, a.len() as int);
        assert(s.subrange(0, a.len() as int) =~= a);
        assert(strip_cr(a) =~= a);
        assert(s.subrange(a.len() as int + 1, s.len() as int) =~= Seq::<char>::empty());
        assert(roster_lines(s.subrange(a.len() as int + 1, s.len() as int))
            == Seq::<Seq<char>>::empty());
        assert(roster_lines(s) == seq![a] + Seq::<Seq<char>>::empty());
        assert(roster_lines(c) == Seq::<Seq<char>>::empty());
        assert(seq![a] + Seq::<Seq<char>>::empty() =~= Seq::<Seq<char>>::empty() + seq![a]);
        assert(roster_lines(s) == roster_lines(c) + seq![a]);
    } else {
        lemma_nl_index(c);
        let k = nl_index(c) as int;
        assert(k < c.len()) by {
            if k == c.len() {
                assert(c[c.len() - 1] != '\n');
            }
        }
        assert forall|j: int| 0 <= j < k implies s[j] != '\n' by {
            assert(s[j] == c[j]);
        }
        assert(s[k] == c[k]);
        lemma_nl_index_is(s, k);
        assert(s.subrange(0, k) =~= c.subrange(0, k));
        let c2 = c.subrange(k + 1, c.len() as int);
        assert(s.subrange(k + 1, s.len() as int) =~= c2 + a + seq!['\n']);
        assert(c2.len() == 0 || c2.last() == '\n') by {
            if c2.len() > 0 {
                assert(c2.last() == c.last());
            }
        }
        lemma_roster_lines_append(c2, a);
        assert(roster_lines(s) == seq![strip_cr(s.subrange(0, k))] + roster_lines(
            s.subrange(k + 1, s.len() as int),
        ));
        assert(strip_cr(s.subrange(0, k)) == strip_cr(c.subrange(0, k)));
        assert(roster_lines(s.subrange(k + 1, s.len() as int)) == roster_lines(c2) + seq![a]);
        let hd = seq![strip_cr(c.subrange(0, k))];
        assert(roster_lines(c) == hd + roster_lines(c2));
        assert(hd + (roster_lines(c2) + seq![a]) =~= (hd + roster_lines(c2)) + seq![a]);
        assert(roster_lines(s) == roster_lines(c) + seq![a]);
    }
}

/// Law: a mailbox written to the roster is found by every later scan
/// for it, whatever spelling the entry used. If the roster was
/// newline-terminated and clean of the mailbox, and the written entry
/// is a single line carrying the queried mailbox as a lone address,
/// the scan of the grown roster answers `true` — and the entry's line
/// is the only line that matches, so a roster holds one line per
/// mailbox however often it is subscribed.
pub proof fn lemma_subscribe_then_member(c: Seq<char>, written: Seq<char>, t: Seq<char>)
    requires
        c.len() == 0 || c.last() == '\n',
        forall|i: int| 0 <= i < written.len() ==> written[i] != '\n',
        written.len() == 0 || written.last() != '\r',
        scan_lines(roster_lines(c), t) == Some(false),
        line_matches(written, t) == Some(true),
    ensures
        scan_lines(roster_lines(c + written + seq!['\n']), t) == Some(true),
        roster_lines(c + written + seq!['\n']) == roster_lines(c) + seq![written],
        forall|i: int|
            0 <= i < roster_lines(c).len() ==> line_matches(
                #[trigger] roster_lines(c + written + seq!['\n'])[i],
                t,
            ) == Some(false),
{
    lemma_roster_lines_append(c, written);
    lemma_scan_append(roster_lines(c), seq![written], t);
    lemma_scan_all_false(roster_lines(c), t);
    assert forall|i: int|
        0 <= i < roster_lines(c).len() implies line_matches(
        #[trigger] roster_lines(c + written + seq!['\n'])[i],
        t,
    ) == Some(false) by {
        assert((roster_lines(c) + seq![written])[i] == roster_lines(c)[i]);
    }
}

/// Law: subscribing an address and then asking for it succeeds, and a
/// second subscribe of the same address appends nothing, leaving the
/// roster with exactly one line for it. Holds for addresses whose
/// first entry is a lone mailbox (a pure group spelling is reduced to
/// a member that a scan of lone mailboxes will not see).
pub proof fn lemma_subscribe_idempotent(c: Seq<char>, a: Seq<char>)
    requires
        c.len() == 0 || c.last() == '\n',
        forall|i: int| 0 <= i < a.len() ==> a[i] != '\n',
        a.len() == 0 || a.last() != '\r',
        norm_of(a) is Some,
        line_matches(a, norm_of(a).unwrap()) == Some(true),
        scan_lines(roster_lines(c), norm_of(a).unwrap()) == Some(false),
    ensures
        scan_lines(roster_lines(c + a + seq!['\n']), norm_of(a).unwrap()) == Some(true),
        roster_lines(c + a + seq!['\n']) == roster_lines(c) + seq![a],
{
    lemma_subscribe_then_member(c, a, norm_of(a).unwrap());
}

/// Law: matching is representation-insensitive. An entry subscribed
/// under a decorated spelling (display name, brackets) is found by a
/// query that spells only the routing address, because entry and
/// query reduce to the same normalized mailbox.
pub proof fn lemma_representation_insensitive(c: Seq<char>, repr: Seq<char>, query: Seq<char>)
    requires
        c.len() == 0 || c.last() == '\n',
        forall|i: int| 0 <= i < repr.len() ==> repr[i] != '\n',
        repr.len() == 0 || repr.last() != '\r',
        norm_of(query) is Some,
        line_matches(repr, norm_of(query).unwrap()) == Some(true),
        scan_lines(roster_lines(c), norm_of(query).unwrap()) == Some(false),
    ensures
        scan_lines(roster_lines(c + repr + seq!['\n']), norm_of(query).unwrap()) == Some(true),
{
    lemma_subscribe_then_member(c, repr, norm_of(query).unwrap());
}

/// Law: unsubscribing one of two distinct subscribers leaves a roster
/// holding exactly the other. The two entries must spell themselves
/// trimmed and on their own line, as `subscribe` writes them.
pub proof fn lemma_unsubscribe_leaves_other(a: Seq<char>, b: Seq<char>)
    requires
        forall|i: int| 0 <= i < a.len() ==> a[i] != '\n',
        forall|i: int| 0 <= i < b.len() ==> b[i] != '\n',
        trim_chars(a) == a,
        trim_chars(b) == b,
        a != b,
    ensures
        roster_lines(unsub_content(roster_lines(a + seq!['\n'] + b + seq!['\n']), a))
            == seq![b],
{
    let c1 = a + seq!['\n'];
    let whole = a + seq!['\n'] + b + seq!['\n'];
    assert(a.len() == 0 || a.last() != '\r') by {
        if a.len() > 0 && a.last() == '\r' {
            assert(trim_chars(a).len() < a.len()) by {
                lemma_trim_shorter_on_space_edge(a);
            }
        }
    }
    assert(b.len() == 0 || b.last() != '\r') by {
        if b.len() > 0 && b.last() == '\r' {
            assert(trim_chars(b).len() < b.len()) by {
                lemma_trim_shorter_on_space_edge(b);
            }
        }
    }
    assert(Seq::<char>::empty() + a + seq!['\n'] =~= c1);
    lemma_roster_lines_append(Seq::<char>::empty(), a);
    assert(roster_lines(c1) == seq![a]);
    assert(whole =~= c1 + b + seq!['\n']);
    lemma_roster_lines_append(c1, b);
    assert(roster_lines(whole) == seq![a, b]) by {
        assert(seq![a] + seq![b] =~= seq![a, b]);
    }
    let out = unsub_content(seq![a, b], a);
    assert(seq![a, b].drop_first() =~= seq![b]);
    assert(seq![b].drop_first() =~= Seq::<Seq<char>>::empty());
    assert(unsub_content(Seq::<Seq<char>>::empty(), a) == Seq::<char>::empty());
    assert(unsub_content(seq![b], a) == (b + seq!['\n']) + Seq::<char>::empty());
    assert(out == Seq::<char>::empty() + unsub_content(seq![b], a));
    assert(out =~= b + seq!['\n']);
    assert(Seq::<char>::empty() + b + seq!['\n'] =~= b + seq!['\n']);
    lemma_roster_lines_append(Seq::<char>::empty(), b);
}

/// A sequence whose edge holds whitespace shrinks under trimming.
proof fn lemma_trim_shorter_on_space_edge(s: Seq<char>)
    requires
        s.len() > 0,
        crate::text::is_space(s[0]) || crate::text::is_space(s.last()),
    ensures
        trim_chars(s).len() < s.len(),
    decreases s.len(),
{
    if crate::text::is_space(s[0]) {
        lemma_trim_len(s.drop_first());
    } else {
        lemma_trim_len(s.drop_last());
    }
}

/// Trimming never lengthens a sequence.
proof fn lemma_trim_len(s: Seq<char>)
    ensures
        trim_chars(s).len() <= s.len(),
    decreases s.len(),
{
    if s.len() == 0 {
    } else if crate::text::is_space(s[0]) {
        lemma_trim_len(s.drop_first());
    } else if crate::text::is_space(s.last()) {
        lemma_trim_len(s.drop_last());
    } else {
    }
}

} // verus!
