use vstd::prelude::*;

use crate::err::ListError;
use crate::text::str_eq;

verus! {

/// One entry of a parsed address field: a lone mailbox, or a named
/// group of mailboxes. Only the routing addresses are kept; display
/// names play no part in membership.
pub enum AddrEntry {
    Single(String),
    Group(Vec<String>),
}

/// An entry reduced to (is-group, its routing addresses in order).
/// A lone mailbox carries exactly one address.
pub open spec fn entry_rep(e: AddrEntry) -> (bool, Seq<Seq<char>>) {
    match e {
        AddrEntry::Single(a) => (false, seq![a@]),
        AddrEntry::Group(addrs) => (true, addrs@.map_values(|s: String| s@)),
    }
}

pub open spec fn entries_rep(v: Seq<AddrEntry>) -> Seq<(bool, Seq<Seq<char>>)> {
    v.map_values(|e: AddrEntry| entry_rep(e))
}

/// The entries that the address grammar reads out of `s`, or nothing
/// where `s` is not a valid address field. A function of `s` alone.
pub uninterp spec fn addr_entries_of(s: Seq<char>) -> Option<Seq<(bool, Seq<Seq<char>>)>>;

/// Relies on mailparse::addrparse for the address grammar itself: the
/// entries it parses depend on the input string alone, and a string it
/// cannot parse is reported as an error.
#[verifier::external_body]
pub(crate) fn parse_entries(s: &str) -> (r: Result<Vec<AddrEntry>, ListError>)
    ensures
        match addr_entries_of(s@) {
            Some(es) => r matches Ok(v) && entries_rep(v@) == es,
            None => r is Err,
        },
{
    match mailparse::addrparse(s) {
        Ok(list) => Ok(
            list.iter().map(
                |a| match a {
                    mailparse::MailAddr::Single(x) => AddrEntry::Single(x.addr.clone()),
                    mailparse::MailAddr::Group(g) => AddrEntry::Group(
                        g.addrs.iter().map(|x| x.addr.clone()).collect(),
                    ),
                },
            ).collect(),
        ),
        Err(e) => Err(ListError { message: e.to_string() }),
    }
}

/// The normalized mailbox a whole address string stands for: the first
/// routing address of its first entry, so a group is reduced to its
/// first member. Nothing where the string does not parse, parses to no
/// entries, or opens with an empty group.
pub open spec fn norm_of(s: Seq<char>) -> Option<Seq<char>> {
    match addr_entries_of(s) {
        Some(es) => if es.len() > 0 && es[0].1.len() > 0 {
            Some(es[0].1[0])
        } else {
            None
        },
        None => None,
    }
}

/// Parse `addr` down to its normalized mailbox.
pub fn parse_addr(addr: &str) -> (r: Result<String, ListError>)
    ensures
        match norm_of(addr@) {
            Some(a) => r matches Ok(s) && s@ == a,
            None => r is Err,
        },
{
    let entries = match parse_entries(addr) {
        Ok(v) => v,
        Err(e) => {
            return Err(e);
        },
    };
    if entries.len() == 0 {
        return Err(ListError::new(String::from_str("no address found")));
    }
    proof {
        assert(entries_rep(entries@)[0] == entry_rep(entries@[0]));
    }
    match &entries[0] {
        AddrEntry::Single(a) => Ok(a.clone()),
        AddrEntry::Group(addrs) => {
            if addrs.len() == 0 {
                Err(ListError::new(String::from_str("empty group address")))
            } else {
                proof {
                    assert(entry_rep(entries@[0]).1[0] == addrs@.map_values(|s: String| s@)[0]);
                }
                Ok(addrs[0].clone())
            }
        },
    }
}

/// Whether some lone mailbox among `es` routes to `t`; mailboxes
/// inside groups are not considered.
pub open spec fn entries_have_single(es: Seq<(bool, Seq<Seq<char>>)>, t: Seq<char>) -> bool
    decreases es.len(),
{
    if es.len() == 0 {
        false
    } else {
        (!es[0].0 && es[0].1.contains(t)) || entries_have_single(es.drop_first(), t)
    }
}

/// Whether `line` parses and one of its lone mailboxes routes to `t`.
pub open spec fn line_matches(line: Seq<char>, t: Seq<char>) -> Option<bool> {
    match addr_entries_of(line) {
        Some(es) => Some(entries_have_single(es, t)),
        None => None,
    }
}

/// Scan one roster line for a lone mailbox routing to `target`.
pub fn line_has_single(line: &str, target: &str) -> (r: Result<bool, ListError>)
    ensures
        match line_matches(line@, target@) {
            Some(b) => r matches Ok(x) && x == b,
            None => r is Err,
        },
{
    let entries = match parse_entries(line) {
        Ok(v) => v,
        Err(e) => {
            return Err(e);
        },
    };
    let ghost es = entries_rep(entries@);
    proof {
        assert(es.skip(0) =~= es);
    }
    let mut i: usize = 0;
    while i < entries.len()
        invariant
            i <= entries.len(),
            es == entries_rep(entries@),
            addr_entries_of(line@) == Some(es),
            es.len() == entries@.len(),
            entries_have_single(es, target@) == entries_have_single(
                es.skip(i as int),
                target@,
            ),
        decreases entries.len() - i,
    {
        proof {
            assert(es.skip(i as int).len() > 0);
            assert(es.skip(i as int)[0] == es[i as int]);
            assert(es[i as int] == entry_rep(entries@[i as int]));
            assert(es.skip(i as int).drop_first() =~= es.skip(i as int + 1));
        }
        match &entries[i] {
            AddrEntry::Single(a) => {
                if str_eq(a.as_str(), target) {
                    proof {
                        assert(entry_rep(entries@[i as int]).1 == seq![a@]);
                        assert(seq![a@].contains(target@)) by {
                            assert(seq![a@][0] == target@);
                        }
                        assert(entries_have_single(es.skip(i as int), target@));
                        assert(entries_have_single(es, target@));
                    }
                    return Ok(true);
                }
                proof {
                    assert(entry_rep(entries@[i as int]).1 =~= seq![a@]);
                    assert(forall|x: Seq<char>| seq![a@].contains(x) ==> x == a@);
                    assert(!seq![a@].contains(target@));
                }
            },
            AddrEntry::Group(_) => {
            },
        }
        i = i + 1;
    }
    proof {
        assert(es.skip(i as int) =~= Seq::empty());
    }
    Ok(false)
}

/// Every routing address among `es`, in order, group members included.
pub open spec fn flat_addrs(es: Seq<(bool, Seq<Seq<char>>)>) -> Seq<Seq<char>>
    decreases es.len(),
{
    if es.len() == 0 {
        Seq::empty()
    } else {
        es[0].1 + flat_addrs(es.drop_first())
    }
}

} // verus!
