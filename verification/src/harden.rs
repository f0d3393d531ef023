//! Closing the two paths by which a passphrase held in memory reaches the disk without
//! anyone deciding it should.
//!
//! Both are real rather than theoretical: a dump of a process holding a passphrase is a plain
//! file with the passphrase in it, readable by root forever after.

use vstd::prelude::*;

use crate::text::{decimal, decimal_of, lines, opt, opt_str, split_lines, trim, trimmed, views};

verus! {

/// The hardening that took effect, in words.
pub open spec fn took_effect(core_disabled: bool, dump_denied: bool) -> Seq<Seq<char>> {
    (if core_disabled {
        seq!["core dumps disabled"@]
    } else {
        seq![]
    }) + (if dump_denied {
        seq!["ptrace/dump denied"@]
    } else {
        seq![]
    })
}

/// Several words of text, as character sequences.
pub open spec fn texts(v: Seq<&'static str>) -> Seq<Seq<char>> {
    v.map_values(|s: &'static str| s@)
}

/// Reports what hardening took effect, from whether the core limit could be set to zero and
/// whether the process could be made undumpable.
///
/// It reports rather than assumes, because a hardening step that silently fails is worse than
/// one that was never attempted: it leaves you believing in a protection you do not have.
pub fn harden(core_disabled: bool, dump_denied: bool) -> (done: Vec<&'static str>)
    ensures
        texts(done@) == took_effect(core_disabled, dump_denied),
{
    let mut done: Vec<&'static str> = Vec::new();
    if core_disabled {
        done.push("core dumps disabled");
    }
    if dump_denied {
        done.push("ptrace/dump denied");
    }
    assert(texts(done@) =~= took_effect(core_disabled, dump_denied));
    done
}

/// How many lines say something.
pub open spec fn spoken(ls: Seq<Seq<char>>) -> nat
    decreases ls.len(),
{
    if ls.len() == 0 {
        0
    } else {
        spoken(ls.drop_last()) + if trim(ls.last()).len() > 0 {
            1nat
        } else {
            0nat
        }
    }
}

/// How many swap devices a listing names. The first line is the header; anything after it is
/// a live device.
pub open spec fn devices(listing: Seq<char>) -> nat {
    if lines(listing).len() == 0 {
        0
    } else {
        spoken(lines(listing).drop_first())
    }
}

/// What is said about active swap.
pub open spec fn swap_note(listing: Option<Seq<char>>) -> Option<Seq<char>> {
    match listing {
        Some(text) => if devices(text) == 0 {
            None
        } else {
            Some(
                "swap is active ("@ + decimal(devices(text))
                    + " devices) — unless it is encrypted, memory can reach the disk"@,
            )
        },
        None => None,
    }
}

/// Reports active swap, which is the other path from memory to disk, from what `/proc/swaps`
/// says where it could be read.
///
/// Nothing here can prevent a page from being written to an unencrypted swap device. The
/// honest response is to say so rather than to imply a guarantee that does not exist.
pub fn swap_warning(listing: Option<&str>) -> (r: Option<String>)
    ensures
        opt(r) == swap_note(opt_str(listing)),
{
    let text = match listing {
        Some(text) => text,
        None => {
            return None;
        },
    };
    let ls = split_lines(text);
    let ghost rest = lines(text@).drop_first();
    let mut n: u64 = 0;
    let mut i: usize = 1;
    while i < ls.len()
        invariant
            views(ls@) == lines(text@),
            rest == lines(text@).drop_first(),
            1 <= i,
            i <= ls@.len() || ls@.len() == 0 && i == 1,
            ls@.len() > 0 ==> n == spoken(rest.take(i - 1)),
            ls@.len() == 0 ==> n == 0,
            n < i,
        decreases ls@.len() - i,
    {
        let ghost next = rest.take(i as int);
        assert(next.drop_last() =~= rest.take(i - 1));
        assert(next.last() == ls@[i as int]@) by {
            assert(views(ls@)[i as int] == ls@[i as int]@);
        }
        if trimmed(ls[i].as_str()).unicode_len() > 0 {
            n = n + 1;
        }
        i += 1;
    }
    proof {
        if ls@.len() > 0 {
            assert(rest.take(i - 1) =~= rest);
        }
    }
    if n == 0 {
        return None;
    }
    let mut note = "swap is active (".to_string();
    note.append(decimal_of(n).as_str());
    note.append(" devices) — unless it is encrypted, memory can reach the disk");
    Some(note)
}

} // verus!
