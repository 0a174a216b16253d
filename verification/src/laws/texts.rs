//! The order of texts, and texts without what stands at their ends.

use crate::copy_tree::entry_of;
use crate::mft::fixup::{minimal_valid, FILE_SIGNATURE};
use crate::text::{lemma_text_less_total, lemma_text_less_trans, text_less, trim_end, trim_start};
use vstd::prelude::*;

verus! {

/// Texts are ordered by the first place in which they differ, and a text comes before
/// every longer one that begins with it. Of two different texts one comes first, and
/// what comes before a text comes before all that follow it.
pub proof fn law_first_difference_decides(
    common: Seq<char>,
    a: char,
    b: char,
    x: Seq<char>,
    y: Seq<char>,
    z: Seq<char>,
)
    ensures
        a < b ==> text_less(common.push(a) + x, common.push(b) + y),
        text_less(common, common.push(b) + y),
        x != y ==> text_less(x, y) != text_less(y, x),
        !text_less(x, x),
        text_less(x, y) && text_less(y, z) ==> text_less(x, z),
{
    if a < b {
        lemma_difference(common, a, b, x, y);
    }
    lemma_beginning(common, b, y);
    lemma_text_less_total(x, y);
    lemma_text_less_total(x, x);
    if text_less(x, y) && text_less(y, z) {
        lemma_text_less_trans(x, y, z);
    }
}

proof fn lemma_difference(common: Seq<char>, a: char, b: char, x: Seq<char>, y: Seq<char>)
    requires
        a < b,
    ensures
        text_less(common.push(a) + x, common.push(b) + y),
    decreases common.len(),
{
    let s = common.push(a) + x;
    let t = common.push(b) + y;
    if common.len() > 0 {
        lemma_difference(common.drop_first(), a, b, x, y);
        assert(s.drop_first() =~= common.drop_first().push(a) + x);
        assert(t.drop_first() =~= common.drop_first().push(b) + y);
        assert(s[0] == common[0] && t[0] == common[0]);
    } else {
        assert(s[0] == a && t[0] == b);
    }
}

proof fn lemma_beginning(common: Seq<char>, b: char, y: Seq<char>)
    ensures
        text_less(common, common.push(b) + y),
    decreases common.len(),
{
    let t = common.push(b) + y;
    if common.len() > 0 {
        lemma_beginning(common.drop_first(), b, y);
        assert(t.drop_first() =~= common.drop_first().push(b) + y);
        assert(t[0] == common[0]);
    }
}

/// The character so many times.
pub open spec fn repeated(c: char, n: nat) -> Seq<char> {
    Seq::new(n, |i: int| c)
}

/// What stands at an end of a text goes however often it stands there, and nothing else
/// does.
pub proof fn law_ends_are_trimmed(s: Seq<char>, c: char, n: nat)
    ensures
        s.len() == 0 || s[0] != c ==> trim_start(repeated(c, n) + s, c) == s,
        s.len() == 0 || s.last() != c ==> trim_end(s + repeated(c, n), c) == s,
    decreases n,
{
    if n > 0 {
        let m = (n - 1) as nat;
        law_ends_are_trimmed(s, c, m);
        assert((repeated(c, n) + s).drop_first() =~= repeated(c, m) + s);
        assert((s + repeated(c, n)).drop_last() =~= s + repeated(c, m));
    } else {
        assert(repeated(c, n) + s =~= s);
        assert(s + repeated(c, n) =~= s);
    }
}

/// An entry of a manifest says what it was made of; a directory has no size.
pub proof fn law_entry_says_what_it_is_of(
    rel: Seq<char>,
    is_dir: bool,
    len: u64,
    mtime: i64,
    attrs: u32,
)
    ensures
        ({
            let e = entry_of(rel, is_dir, len, mtime, attrs);
            &&& e.rel_path == rel
            &&& e.is_dir == is_dir
            &&& e.mtime == mtime
            &&& e.attrs == attrs
            &&& is_dir ==> e.size == 0
            &&& !is_dir ==> e.size == len
        }),
{
}

/// A record begins with the four letters that every record begins with, and is long
/// enough for what every record holds.
pub proof fn law_record_begins_with_its_mark(b: Seq<u8>)
    ensures
        minimal_valid(b) <==> b.len() >= 28 && b[0] == 70 && b[1] == 73 && b[2] == 76 && b[3] == 69,
{
    if b.len() >= 28 && b[0] == 70 && b[1] == 73 && b[2] == 76 && b[3] == 69 {
        assert forall|i: int| 0 <= i < 4 implies #[trigger] b[i]
            == FILE_SIGNATURE@[i] by {}
    }
    if minimal_valid(b) {
        assert(b[0] == FILE_SIGNATURE@[0]);
        assert(b[1] == FILE_SIGNATURE@[1]);
        assert(b[2] == FILE_SIGNATURE@[2]);
        assert(b[3] == FILE_SIGNATURE@[3]);
    }
}

} // verus!
