//! Sample functions of varying complexity; the Rust fixture of the
//! analyzer's tests.
use vstd::prelude::*;
use crate::text::str_eq;

verus! {

pub fn add(a: i32, b: i32) -> (r: i32)
    requires
        i32::MIN <= a + b <= i32::MAX,
    ensures
        r == a + b,
{
    a + b
}

pub fn classify(n: i32) -> (r: &'static str)
    ensures
        r@ == if n < 0 {
            "negative"@
        } else if n == 0 {
            "zero"@
        } else if n > 0 && n < 10 {
            "small positive"@
        } else {
            "large positive"@
        },
{
    if n < 0 {
        "negative"
    } else if n == 0 {
        "zero"
    } else if n > 0 && n < 10 {
        "small positive"
    } else {
        "large positive"
    }
}

/// Sum of the even items of `s`.
pub open spec fn even_sum(s: Seq<i32>) -> int
    decreases s.len(),
{
    if s.len() == 0 {
        0
    } else {
        even_sum(s.drop_last()) + if s.last() % 2 == 0 {
            s.last() as int
        } else {
            0
        }
    }
}

pub fn sum_evens(items: &[i32]) -> (r: i32)
    requires
        forall|k: int| 0 <= k <= items@.len() ==> i32::MIN <= #[trigger] even_sum(items@.take(k)) <= i32::MAX,
    ensures
        r == even_sum(items@),
{
    let mut total: i32 = 0;
    let mut i: usize = 0;
    assert(items@.take(0) =~= Seq::<i32>::empty());
    while i < items.len()
        invariant
            i <= items@.len(),
            total == even_sum(items@.take(i as int)),
            forall|k: int| 0 <= k <= items@.len() ==> i32::MIN <= #[trigger] even_sum(items@.take(k)) <= i32::MAX,
        decreases items@.len() - i,
    {
        let x = items[i];
        proof {
            assert(items@.take(i + 1).drop_last() =~= items@.take(i as int));
            assert(even_sum(items@.take(i + 1)) <= i32::MAX);
        }
        if x % 2 == 0 {
            total = total + x;
        }
        i += 1;
    }
    assert(items@.take(items@.len() as int) =~= items@);
    total
}

/// The index of each word: the position of its last occurrence. Entries
/// come in the order the words first occur.
/// Some entry of `map` is keyed `w`.
pub open spec fn indexed(map: Seq<(String, usize)>, w: Seq<char>) -> bool {
    exists|j: int| 0 <= j < map.len() && (#[trigger] map[j]).0@ == w
}

pub fn build_index(words: &[&str]) -> (map: Vec<(String, usize)>)
    ensures
        forall|a: int, b: int| 0 <= a < b < map@.len() ==> (#[trigger] map@[a]).0@ != (#[trigger] map@[b]).0@,
        forall|j: int|
            0 <= j < map@.len() ==> {
                let i = (#[trigger] map@[j]).1 as int;
                &&& 0 <= i < words@.len()
                &&& words@[i]@ == map@[j].0@
                &&& forall|q: int| i < q < words@.len() ==> words@[q]@ != map@[j].0@
            },
        forall|p: int| 0 <= p < words@.len() ==> #[trigger] indexed(map@, words@[p]@),
{
    let mut map: Vec<(String, usize)> = Vec::new();
    let mut i: usize = 0;
    while i < words.len()
        invariant
            i <= words@.len(),
            forall|a: int, b: int| 0 <= a < b < map@.len() ==> (#[trigger] map@[a]).0@ != (#[trigger] map@[b]).0@,
            forall|j: int|
                0 <= j < map@.len() ==> {
                    let x = (#[trigger] map@[j]).1 as int;
                    &&& 0 <= x < i
                    &&& words@[x]@ == map@[j].0@
                    &&& forall|q: int| x < q < i ==> words@[q]@ != map@[j].0@
                },
            forall|p: int|
                #![trigger words@[p]]
                0 <= p < i ==> exists|j: int| 0 <= j < map@.len() && (#[trigger] map@[j]).0@ == words@[p]@,
        decreases words@.len() - i,
    {
        let w = words[i];
        let mut j: usize = 0;
        while j < map.len() && !str_eq(map[j].0.as_str(), w)
            invariant
                j <= map@.len(),
                forall|q: int| 0 <= q < j ==> (#[trigger] map@[q]).0@ != w@,
            decreases map@.len() - j,
        {
            j += 1;
        }
        let ghost before = map@;
        if j < map.len() {
            map.set(j, (w.to_owned(), i));
            proof {
                assert forall|a: int, b: int| 0 <= a < b < map@.len() implies (#[trigger] map@[a]).0@
                    != (#[trigger] map@[b]).0@ by {
                    assert(before[a].0@ != before[b].0@);
                }
                assert forall|p: int| #![trigger words@[p]] 0 <= p < i + 1 implies exists|q: int|
                    0 <= q < map@.len() && (#[trigger] map@[q]).0@ == words@[p]@ by {
                    if p < i {
                        let q = choose|q: int| 0 <= q < before.len() && (#[trigger] before[q]).0@ == words@[p]@;
                        assert(map@[q].0@ == before[q].0@);
                    } else {
                        assert(map@[j as int].0@ == words@[p]@);
                    }
                }
            }
        } else {
            map.push((w.to_owned(), i));
            proof {
                assert forall|a: int, b: int| 0 <= a < b < map@.len() implies (#[trigger] map@[a]).0@
                    != (#[trigger] map@[b]).0@ by {
                    if b < before.len() {
                        assert(before[a].0@ != before[b].0@);
                    }
                }
                assert forall|p: int| #![trigger words@[p]] 0 <= p < i + 1 implies exists|q: int|
                    0 <= q < map@.len() && (#[trigger] map@[q]).0@ == words@[p]@ by {
                    if p < i {
                        let q = choose|q: int| 0 <= q < before.len() && (#[trigger] before[q]).0@ == words@[p]@;
                        assert(map@[q] == before[q]);
                    } else {
                        assert(map@[before.len() as int].0@ == words@[p]@);
                    }
                }
            }
        }
        i += 1;
    }
    assert forall|p: int| #![trigger words@[p]] 0 <= p < words@.len() implies exists|j: int|
        0 <= j < map@.len() && (#[trigger] map@[j]).0@ == words@[p]@ by {
        assert(i == words@.len());
        assert(p < i);
        let wp = words@[p];
        assert(exists|j: int| 0 <= j < map@.len() && (#[trigger] map@[j]).0@ == words@[p]@);
        assert(indexed(map@, words@[p]@));
    }

    map
}

} // verus!
