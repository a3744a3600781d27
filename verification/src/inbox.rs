//! Where a received email is kept until it is processed, and whose emails
//! are accepted.

use crate::text::{contains, force_extension, occurs_in, split, split_from, texts, with_extension};
use vstd::prelude::*;
use vstd::string::StringExecFns;

verus! {

/// The sender is let in: there is no filter, or the filter stands somewhere
/// in the address of the sender.
pub open spec fn allowed(from: Seq<char>, filter: Option<Seq<char>>) -> bool {
    match filter {
        Some(wanted) => occurs_in(wanted, from),
        None => true,
    }
}

/// Tells whether the sender is let in.
pub fn sender_allowed(from: &str, filter: Option<&str>) -> (yes: bool)
    ensures
        yes == allowed(
            from@,
            match filter {
                Some(f) => Some(f@),
                None => None,
            },
        ),
{
    match filter {
        Some(wanted) => contains(from, wanted),
        None => true,
    }
}

/// The domain of an address: what stands between its first and its second
/// `@`, or after the first where there is no second. An address without `@`
/// stands for itself.
pub open spec fn domain_of(from: Seq<char>) -> Seq<char> {
    if split(from, '@').len() >= 2 {
        split(from, '@')[1]
    } else {
        from
    }
}

/// The domain of an address.
pub fn sender_domain(from: &str) -> (domain: String)
    ensures
        domain@ == domain_of(from@),
{
    let pieces = split_from(from, 0, '@');
    assert(from@.skip(0) =~= from@);
    if pieces.len() >= 2 {
        pieces[1].clone()
    } else {
        String::from_str(from)
    }
}

/// The texts of the first `count` entries with `separator` between them.
pub open spec fn joined(list: Seq<Seq<char>>, separator: Seq<char>, count: nat) -> Seq<char>
    decreases count,
{
    if count == 0 || count > list.len() {
        Seq::empty()
    } else if count == 1 {
        list[0]
    } else {
        joined(list, separator, (count - 1) as nat) + separator + list[count - 1]
    }
}

/// The name of the directory for the recipients of an email: their
/// addresses with commas between them.
pub fn recipients_name(to: &Vec<String>) -> (name: String)
    ensures
        name@ == joined(texts(to@), ","@, to.len() as nat),
{
    let mut name = String::new();
    let mut i: usize = 0;
    while i < to.len()
        invariant
            i <= to.len(),
            name@ == joined(texts(to@), ","@, i as nat),
        decreases to.len() - i,
    {
        if i > 0 {
            name.append(",");
        }
        name.append(to[i].as_str());
        proof {
            assert(texts(to@)[i as int] == to[i as int]@);
            if i == 0 {
                assert(name@ =~= to[0]@);
            }
        }
        i += 1;
    }
    name
}

/// The name of the file for an email that came at the time `stamp`: the
/// stamp with the extension `eml`. `None` for an empty stamp.
pub fn file_name(stamp: &str) -> (name: Option<String>)
    ensures
        match with_extension(stamp@, "eml"@) {
            Some(text) => name matches Some(n) && n@ == text,
            None => name is None,
        },
{
    force_extension(stamp, "eml")
}

} // verus!
