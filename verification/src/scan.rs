//! How the names that match a pattern are gone through and cleared.

use crate::text::{owned, same_text, texts};
use vstd::prelude::*;

verus! {

/// How many names are cleared at once.
pub const CLEAR_BATCH: usize = 500;

/// The cursor with which a walk through the names starts.
pub fn first_cursor() -> (r: String)
    ensures
        r@ == "0"@,
{
    owned("0")
}

/// The cursor with which a walk goes on; none where it has come to its end.
pub fn next_cursor(reply: String) -> (r: Option<String>)
    ensures
        match r {
            Some(c) => c@ == reply@ && reply@ != "0"@,
            None => reply@ == "0"@,
        },
{
    if same_text(reply.as_str(), "0") {
        None
    } else {
        Some(reply)
    }
}

/// Lists one behind the other.
pub open spec fn joined(batches: Seq<Vec<String>>) -> Seq<Seq<char>>
    decreases batches.len(),
{
    if batches.len() == 0 {
        Seq::empty()
    } else {
        joined(batches.drop_last()) + texts(batches.last()@)
    }
}

/// Names in batches, in their order: all are full but the last one, and none is
/// empty.
pub fn batches(names: &Vec<String>) -> (r: Vec<Vec<String>>)
    ensures
        joined(r@) == texts(names@),
        forall|i: int| 0 <= i < r@.len() ==> 0 < (#[trigger] r@[i])@.len() <= CLEAR_BATCH,
        forall|i: int| 0 <= i < r@.len() - 1 ==> (#[trigger] r@[i])@.len() == CLEAR_BATCH,
{
    let ghost all = texts(names@);
    let mut out: Vec<Vec<String>> = Vec::new();
    let mut batch: Vec<String> = Vec::new();
    let mut i: usize = 0;
    assert(joined(out@) + texts(batch@) == all.take(0));
    while i < names.len()
        invariant
            i <= names@.len(),
            all == texts(names@),
            batch@.len() <= CLEAR_BATCH,
            i > 0 ==> batch@.len() > 0,
            joined(out@) + texts(batch@) == all.take(i as int),
            forall|j: int| 0 <= j < out@.len() ==> (#[trigger] out@[j])@.len() == CLEAR_BATCH,
        decreases names@.len() - i,
    {
        if batch.len() == CLEAR_BATCH {
            let ghost before = out@;
            let ghost full = batch;
            out.push(batch);
            batch = Vec::new();
            assert(out@.drop_last() == before);
            assert(joined(out@) == joined(before) + texts(full@));
            assert(texts(batch@) == Seq::<Seq<char>>::empty());
            assert(joined(out@) + texts(batch@) == all.take(i as int));
        }
        let ghost head = texts(batch@);
        batch.push(names[i].clone());
        assert(texts(batch@) == head.push(all[i as int]));
        assert(joined(out@) + head.push(all[i as int]) == (joined(out@) + head).push(
            all[i as int],
        ));
        assert(all.take(i + 1) == all.take(i as int).push(all[i as int]));
        i = i + 1;
    }
    assert(all.take(i as int) == all);
    if batch.len() > 0 {
        let ghost before = out@;
        out.push(batch);
        assert(out@.drop_last() == before);
    } else {
        assert(joined(out@) + texts(batch@) == joined(out@));
    }
    out
}

/// How many names were cleared, by what each batch came to.
pub open spec fn cleared_total(removed: Seq<i64>) -> nat
    decreases removed.len(),
{
    if removed.len() == 0 {
        0
    } else {
        let n = cleared_total(removed.drop_last());
        if removed.last() <= 0 {
            n
        } else if n + removed.last() <= u64::MAX {
            (n + removed.last()) as nat
        } else {
            u64::MAX as nat
        }
    }
}

/// How many names were cleared, by what each batch came to.
pub fn cleared(removed: &Vec<i64>) -> (r: u64)
    ensures
        r == cleared_total(removed@),
{
    let mut n: u64 = 0;
    let mut i: usize = 0;
    assert(removed@.take(0) == Seq::<i64>::empty());
    while i < removed.len()
        invariant
            i <= removed@.len(),
            n == cleared_total(removed@.take(i as int)),
        decreases removed@.len() - i,
    {
        assert(removed@.take(i + 1).drop_last() == removed@.take(i as int));
        assert(removed@.take(i + 1).last() == removed@[i as int]);
        if removed[i] > 0 {
            let more = removed[i] as u64;
            n = if more <= u64::MAX - n {
                n + more
            } else {
                u64::MAX
            };
        }
        i = i + 1;
    }
    assert(removed@.take(i as int) == removed@);
    n
}

} // verus!
