use vstd::prelude::*;
use crate::address::address_text;
use crate::entry::{Blacklist, EntryView};
use crate::table::entry_views;

verus! {

/// The display texts of the entries whose bytes make an address, in order.
pub open spec fn plain_texts(es: Seq<EntryView>) -> Seq<Seq<char>>
    decreases es.len(),
{
    if es.len() == 0 {
        Seq::empty()
    } else {
        let rest = plain_texts(es.drop_last());
        match address_text(es.last().ip, es.last().ip_type) {
            Some(t) => rest.push(t),
            None => rest,
        }
    }
}

/// The parts, one per line, with no newline after the last.
pub open spec fn joined_lines(parts: Seq<Seq<char>>) -> Seq<char>
    decreases parts.len(),
{
    if parts.len() == 0 {
        Seq::empty()
    } else if parts.len() == 1 {
        parts[0]
    } else {
        joined_lines(parts.drop_last()) + seq!['\n'] + parts.last()
    }
}

/// The plain-text listing of entries: one address per line.
pub fn plain_listing(entries: &Vec<Blacklist>) -> (r: String)
    ensures
        r@ == joined_lines(plain_texts(entry_views(entries@))),
{
    let ghost es = entry_views(entries@);
    let mut out = String::new();
    let mut any = false;
    let mut i: usize = 0;
    while i < entries.len()
        invariant
            i <= entries@.len(),
            es == entry_views(entries@),
            out@ == joined_lines(plain_texts(es.subrange(0, i as int))),
            any == (plain_texts(es.subrange(0, i as int)).len() > 0),
        decreases entries@.len() - i,
    {
        let ghost prev = plain_texts(es.subrange(0, i as int));
        assert(es.subrange(0, i + 1).drop_last() =~= es.subrange(0, i as int));
        assert(es.subrange(0, i + 1).last() == entries@[i as int]@);
        match entries[i].to_plain() {
            Some(text) => {
                let ghost parts = prev.push(text@);
                assert(parts.drop_last() =~= prev);
                if any {
                    proof {
                        reveal_strlit("\n");
                    }
                    out.append("\n");
                    out.append(text.as_str());
                    assert(out@ =~= joined_lines(prev) + seq!['\n'] + text@);
                } else {
                    out.append(text.as_str());
                    assert(out@ =~= text@);
                }
                any = true;
            },
            None => {},
        }
        i = i + 1;
    }
    assert(es.subrange(0, i as int) =~= es);
    out
}

} // verus!
