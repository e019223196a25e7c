//! Texts and lists of texts.

use vstd::prelude::*;
use vstd::string::{StrSliceExecFns, StringExecFns};

verus! {

/// The contents of a list of texts.
pub open spec fn texts(list: Seq<String>) -> Seq<Seq<char>> {
    Seq::new(list.len(), |i: int| list[i]@)
}

/// A text of blanks.
pub open spec fn blanks(count: nat) -> Seq<char> {
    Seq::new(count, |i: int| ' ')
}

/// A text with blanks after it, up to a width.
pub open spec fn padded(text: Seq<char>, width: nat) -> Seq<char> {
    if text.len() < width {
        text + blanks((width - text.len()) as nat)
    } else {
        text
    }
}

/// Whether two texts are equal.
pub fn same(a: &str, b: &str) -> (r: bool)
    ensures
        r == (a@ == b@),
{
    let length: usize = a.unicode_len();
    if b.unicode_len() != length {
        return false;
    }
    let mut i: usize = 0;
    while i < length
        invariant
            i <= length,
            length == a@.len() == b@.len(),
            forall|k: int| 0 <= k < i ==> #[trigger] a@[k] == b@[k],
        decreases length - i,
    {
        if a.get_char(i) != b.get_char(i) {
            return false;
        }
        i = i + 1;
    }
    proof {
        assert(a@ =~= b@);
    }
    true
}

/// What follows a prefix, if a text has the prefix.
pub fn strip_prefix<'a>(text: &'a str, prefix: &str) -> (r: Option<&'a str>)
    ensures
        match r {
            Some(rest) => text@ == prefix@ + rest@,
            None => !prefix@.is_prefix_of(text@),
        },
        r is Some ==> prefix@.is_prefix_of(text@),
{
    let (length, total) = (prefix.unicode_len(), text.unicode_len());
    if total < length {
        return None;
    }
    let head: &str = text.substring_char(0, length);
    if same(head, prefix) {
        let rest: &str = text.substring_char(length, total);
        proof {
            assert(text@ =~= prefix@ + rest@);
        }
        Some(rest)
    } else {
        None
    }
}

/// Two texts, one after the other.
pub fn joined(a: &str, b: &str) -> (r: String)
    ensures
        r@ == a@ + b@,
{
    let mut r: String = a.to_owned();
    r.append(b);
    r
}

/// A text with blanks after it, up to a width.
pub fn pad(text: &str, width: usize) -> (r: String)
    ensures
        r@ == padded(text@, width as nat),
{
    let mut r: String = text.to_owned();
    let length: usize = text.unicode_len();
    let mut i: usize = length;
    proof {
        assert(r@ =~= text@ + blanks(0));
    }
    while i < width
        invariant
            length == text@.len(),
            length <= i,
            length < width ==> i <= width,
            length >= width ==> i == length,
            r@ == text@ + blanks((i - length) as nat),
        decreases width - i,
    {
        r.append(" ");
        proof {
            reveal_strlit(" ");
            assert(r@ =~= text@ + blanks((i + 1 - length) as nat));
        }
        i = i + 1;
    }
    proof {
        assert(r@ =~= padded(text@, width as nat));
    }
    r
}

/// Appends texts to a list.
pub fn push_all(list: &mut Vec<String>, more: &[&str])
    ensures
        texts(final(list)@) == texts(old(list)@) + Seq::new(more@.len(), |i: int| more@[i]@),
{
    let ghost start = texts(list@);
    let ghost added = Seq::new(more@.len(), |i: int| more@[i]@);
    let mut i: usize = 0;
    proof {
        assert(start + added.take(0) =~= start);
    }
    while i < more.len()
        invariant
            i <= more@.len(),
            added == Seq::new(more@.len(), |i: int| more@[i]@),
            texts(list@) == start + added.take(i as int),
        decreases more@.len() - i,
    {
        let ghost before = list@;
        list.push(more[i].to_owned());
        i = i + 1;
        proof {
            assert(texts(list@) =~= texts(before).push(added[i - 1]));
            assert(added.take(i as int) =~= added.take(i - 1).push(added[i - 1]));
            assert(texts(list@) =~= start + added.take(i as int));
        }
    }
    proof {
        assert(added.take(more@.len() as int) =~= added);
    }
}

} // verus!
