use vstd::prelude::*;

use crate::addr::addr_entries_of;
use crate::addr::entries_rep;
use crate::addr::entry_rep;
use crate::addr::flat_addrs;
use crate::addr::parse_entries;
use crate::addr::AddrEntry;
use crate::err::ListError;

verus! {

pub open spec fn strings_rep(v: Seq<String>) -> Seq<Seq<char>> {
    v.map_values(|s: String| s@)
}

/// The sender argument handed to the transport process: the from
/// address must open with a lone mailbox; a group or an empty parse
/// is refused.
pub fn transport_from_arg(from: &str) -> (r: Result<String, ListError>)
    ensures
        match addr_entries_of(from@) {
            None => r is Err,
            Some(es) => if es.len() > 0 && !es[0].0 && es[0].1.len() > 0 {
                r matches Ok(s) && s@ == es[0].1[0]
            } else {
                r is Err
            },
        },
{
    let entries = match parse_entries(from) {
        Ok(v) => v,
        Err(e) => {
            return Err(e);
        },
    };
    if entries.len() == 0 {
        return Err(ListError::new(String::from_str("empty from address")));
    }
    proof {
        assert(entries_rep(entries@)[0] == entry_rep(entries@[0]));
    }
    match &entries[0] {
        AddrEntry::Single(a) => Ok(a.clone()),
        AddrEntry::Group(_) => Err(
            ListError::new(String::from_str("a group is not a valid from address")),
        ),
    }
}

/// The recipient arguments for a list of recipient strings: each is
/// parsed and every routing address it carries is handed over, group
/// members included, in order; the first unparseable recipient stops
/// everything.
pub open spec fn recipients_args(to: Seq<Seq<char>>) -> Option<Seq<Seq<char>>>
    decreases to.len(),
{
    if to.len() == 0 {
        Some(Seq::empty())
    } else {
        match addr_entries_of(to[0]) {
            None => None,
            Some(es) => match recipients_args(to.drop_first()) {
                None => None,
                Some(rest) => Some(flat_addrs(es) + rest),
            },
        }
    }
}

/// Every routing address of the parsed entries, in order.
fn flatten_entries(entries: &Vec<AddrEntry>, out: &mut Vec<String>)
    ensures
        strings_rep(final(out)@) == strings_rep(old(out)@) + flat_addrs(entries_rep(entries@)),
{
    let ghost es = entries_rep(entries@);
    let ghost base = strings_rep(old(out)@);
    proof {
        assert(es.skip(0) =~= es);
        assert(base + flat_addrs(es) =~= base + flat_addrs(es));
    }
    let mut i: usize = 0;
    while i < entries.len()
        invariant
            i <= entries.len(),
            es == entries_rep(entries@),
            es.len() == entries@.len(),
            base == strings_rep(old(out)@),
            strings_rep(out@) + flat_addrs(es.skip(i as int)) == base + flat_addrs(es),
        decreases entries.len() - i,
    {
        proof {
            assert(es.skip(i as int)[0] == es[i as int]);
            assert(es[i as int] == entry_rep(entries@[i as int]));
            assert(es.skip(i as int).drop_first() =~= es.skip(i as int + 1));
        }
        let ghost mid = strings_rep(out@);
        match &entries[i] {
            AddrEntry::Single(a) => {
                out.push(a.clone());
                proof {
                    assert(strings_rep(out@) =~= mid + seq![a@]);
                    assert(mid + entry_rep(entries@[i as int]).1 =~= mid + seq![a@]);
                }
            },
            AddrEntry::Group(addrs) => {
                let ghost arep = addrs@.map_values(|s: String| s@);
                let mut j: usize = 0;
                while j < addrs.len()
                    invariant
                        j <= addrs.len(),
                        arep == addrs@.map_values(|s: String| s@),
                        arep.len() == addrs@.len(),
                        strings_rep(out@) == mid + arep.take(j as int),
                    decreases addrs.len() - j,
                {
                    out.push(addrs[j].clone());
                    proof {
                        assert(arep[j as int] == addrs@[j as int]@);
                        assert(strings_rep(out@) =~= (mid + arep.take(j as int)) + seq![
                            arep[j as int],
                        ]);
                        assert(arep.take(j as int + 1) =~= arep.take(j as int) + seq![
                            arep[j as int],
                        ]);
                        assert(mid + (arep.take(j as int) + seq![arep[j as int]]) =~= (mid
                            + arep.take(j as int)) + seq![arep[j as int]]);
                        assert(strings_rep(out@) == mid + arep.take(j as int + 1));
                    }
                    j = j + 1;
                }
                proof {
                    assert(arep.take(addrs@.len() as int) =~= arep);
                    assert(strings_rep(out@) == mid + entry_rep(entries@[i as int]).1);
                }
            },
        }
        proof {
            assert(mid + (entry_rep(entries@[i as int]).1 + flat_addrs(es.skip(i as int + 1)))
                =~= (mid + entry_rep(entries@[i as int]).1) + flat_addrs(es.skip(i as int + 1)));
        }
        i = i + 1;
    }
    proof {
        assert(es.skip(i as int) =~= Seq::<(bool, Seq<Seq<char>>)>::empty());
        assert(strings_rep(out@) + Seq::<Seq<char>>::empty() =~= strings_rep(out@));
    }
}

/// Resolve a list of recipient strings into the addresses handed to
/// the transport process.
pub fn transport_recipients(to: &Vec<String>) -> (r: Result<Vec<String>, ListError>)
    ensures
        match recipients_args(strings_rep(to@)) {
            Some(args) => r matches Ok(v) && strings_rep(v@) == args,
            None => r is Err,
        },
{
    let ghost trep = strings_rep(to@);
    let mut out: Vec<String> = Vec::new();
    proof {
        assert(trep.skip(0) =~= trep);
        assert(strings_rep(out@) =~= Seq::<Seq<char>>::empty());
    }
    let mut i: usize = 0;
    while i < to.len()
        invariant
            i <= to.len(),
            trep == strings_rep(to@),
            trep.len() == to@.len(),
            match recipients_args(trep.skip(i as int)) {
                Some(rest) => recipients_args(trep) == Some(strings_rep(out@) + rest),
                None => recipients_args(trep) is None,
            },
        decreases to.len() - i,
    {
        proof {
            assert(trep.skip(i as int)[0] == trep[i as int]);
            assert(trep[i as int] == to@[i as int]@);
            assert(trep.skip(i as int).drop_first() =~= trep.skip(i as int + 1));
        }
        let entries = match parse_entries(to[i].as_str()) {
            Ok(v) => v,
            Err(e) => {
                return Err(e);
            },
        };
        let ghost before = strings_rep(out@);
        flatten_entries(&entries, &mut out);
        proof {
            match recipients_args(trep.skip(i as int + 1)) {
                Some(rest) => {
                    assert(before + (flat_addrs(entries_rep(entries@)) + rest) =~= (before
                        + flat_addrs(entries_rep(entries@))) + rest);
                },
                None => {},
            }
        }
        i = i + 1;
    }
    proof {
        assert(trep.skip(i as int) =~= Seq::<Seq<char>>::empty());
        assert(strings_rep(out@) + Seq::<Seq<char>>::empty() =~= strings_rep(out@));
    }
    Ok(out)
}

} // verus!
