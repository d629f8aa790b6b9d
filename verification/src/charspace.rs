//! Alphabets: the ordered set of characters that an encoding draws from.

use crate::error::InvalidChar;
use crate::repack::uVar;
use vstd::prelude::*;
use vstd::utf8::is_scalar;

verus! {

/// `char::from_u32` gives the character with the given scalar value, and
/// `None` for a number that is no scalar value (a surrogate, or a number
/// above `0x10FFFF`).
pub assume_specification[ char::from_u32 ](i: u32) -> (r: Option<char>)
    ensures
        r == (if is_scalar(i) {
            Some(i as char)
        } else {
            None::<char>
        }),
;

/// An alphabet, in one of two forms.
pub enum CharSpace {
    /// The characters, written out in order.
    Concrete(&'static str),
    /// Ranges of code points, both ends included. The characters of the
    /// first range come first, in rising order, then those of the second,
    /// and so on.
    Intervals(Vec<(char, char)>),
}

/// The characters from `lo` to `hi`, in rising order.
pub open spec fn range_chars(lo: char, hi: char) -> Seq<char> {
    Seq::new((hi as int - lo as int + 1) as nat, |i: int| (lo as int + i) as char)
}

/// A range that can be counted through: it is not empty and does not reach
/// across the gap that the surrogates leave among the code points.
pub open spec fn range_ok(lo: char, hi: char) -> bool {
    lo <= hi && !(lo as u32 <= 0xD7FF && 0xE000 <= hi as u32)
}

/// The characters of the ranges, one range after the other.
pub open spec fn intervals_chars(arr: Seq<(char, char)>) -> Seq<char>
    decreases arr.len(),
{
    if arr.len() == 0 {
        Seq::empty()
    } else {
        intervals_chars(arr.drop_last()) + range_chars(arr.last().0, arr.last().1)
    }
}

/// The first `i + 1` ranges hold the characters of the first `i`, then
/// those of range `i`.
pub proof fn lemma_intervals_step(arr: Seq<(char, char)>, i: int)
    requires
        0 <= i < arr.len(),
    ensures
        intervals_chars(arr.take(i + 1)) == intervals_chars(arr.take(i)) + range_chars(
            arr[i].0,
            arr[i].1,
        ),
{
    assert(arr.take(i + 1).drop_last() =~= arr.take(i));
}

/// The characters of the first `i` ranges stand at the head of the whole.
pub proof fn lemma_intervals_prefix(arr: Seq<(char, char)>, i: int)
    requires
        0 <= i <= arr.len(),
    ensures
        intervals_chars(arr.take(i)).is_prefix_of(intervals_chars(arr)),
    decreases arr.len() - i,
{
    if i == arr.len() {
        assert(arr.take(i) =~= arr);
    } else {
        lemma_intervals_step(arr, i);
        lemma_intervals_prefix(arr, i + 1);
    }
}

/// Where `x` stands at `i` and nowhere before, `i` is its first index.
pub proof fn lemma_first_index<T>(s: Seq<T>, x: T, i: int)
    requires
        0 <= i < s.len(),
        s[i] == x,
        forall|j: int| 0 <= j < i ==> s[j] != x,
    ensures
        s.index_of_first(x) == Some(i),
{
    s.index_of_first_ensures(x);
    assert(s.contains(x));
}

/// What stands nowhere has no first index.
pub proof fn lemma_no_index<T>(s: Seq<T>, x: T)
    requires
        forall|j: int| 0 <= j < s.len() ==> s[j] != x,
    ensures
        s.index_of_first(x) is None,
{
    s.index_of_first_ensures(x);
}

/// How many characters the ranges hold.
pub open spec fn ranges_len(arr: Seq<(char, char)>) -> int
    decreases arr.len(),
{
    if arr.len() == 0 {
        0
    } else {
        ranges_len(arr.drop_last()) + (arr.last().1 as int - arr.last().0 as int + 1)
    }
}

/// Every range can be counted through.
pub open spec fn ranges_ok(arr: Seq<(char, char)>) -> bool {
    forall|i: int| 0 <= i < arr.len() ==> range_ok(#[trigger] arr[i].0, arr[i].1)
}

/// No character lies in two of the ranges.
pub open spec fn ranges_disjoint(arr: Seq<(char, char)>) -> bool {
    forall|i: int, j: int|
        0 <= i < j < arr.len() ==> (#[trigger] arr[i]).1 < (#[trigger] arr[j]).0 || arr[j].1
            < arr[i].0
}

/// `c` lies in one of the ranges.
pub open spec fn in_ranges(arr: Seq<(char, char)>, c: char) -> bool {
    exists|i: int| 0 <= i < arr.len() && (#[trigger] arr[i]).0 <= c <= arr[i].1
}

/// The characters of a range are those from its first to its last, each
/// once.
pub proof fn lemma_range_chars(lo: char, hi: char)
    requires
        range_ok(lo, hi),
    ensures
        range_chars(lo, hi).len() == hi as int - lo as int + 1,
        forall|k: int|
            0 <= k < range_chars(lo, hi).len() ==> (#[trigger] range_chars(lo, hi)[k]) as int
                == lo as int + k,
{
}

/// What ranges hold: as many characters as the ranges are long, and just
/// the characters that lie in one of them.
pub proof fn lemma_intervals_hold(arr: Seq<(char, char)>)
    requires
        ranges_ok(arr),
    ensures
        intervals_chars(arr).len() == ranges_len(arr),
        forall|c: char|
            #![trigger intervals_chars(arr).contains(c)]
            #![trigger in_ranges(arr, c)]
            intervals_chars(arr).contains(c) <==> in_ranges(arr, c),
    decreases arr.len(),
{
    let all = intervals_chars(arr);
    if arr.len() > 0 {
        let head = arr.drop_last();
        let (lo, hi) = arr.last();
        assert(range_ok(arr[arr.len() - 1].0, arr[arr.len() - 1].1));
        assert(ranges_ok(head)) by {
            assert forall|i: int| 0 <= i < head.len() implies range_ok(
                #[trigger] head[i].0,
                head[i].1,
            ) by {
                assert(range_ok(arr[i].0, arr[i].1));
            }
        }
        lemma_intervals_hold(head);
        lemma_range_chars(lo, hi);
        let flat = intervals_chars(head);
        let tail = range_chars(lo, hi);
        assert forall|c: char| all.contains(c) <==> in_ranges(arr, c) by {
            if all.contains(c) {
                let k = choose|k: int| 0 <= k < all.len() && all[k] == c;
                if k < flat.len() {
                    assert(flat[k] == c);
                    assert(flat.contains(c));
                    assert(in_ranges(head, c));
                    let i = choose|i: int| 0 <= i < head.len() && (#[trigger] head[i]).0 <= c
                        <= head[i].1;
                    assert(arr[i] == head[i]);
                } else {
                    assert(tail[k - flat.len()] == c);
                    assert(arr[arr.len() - 1].0 <= c <= arr[arr.len() - 1].1);
                }
            }
            if in_ranges(arr, c) {
                let i = choose|i: int| 0 <= i < arr.len() && (#[trigger] arr[i]).0 <= c <= arr[i].1;
                if i < head.len() {
                    assert(head[i] == arr[i]);
                    assert(in_ranges(head, c));
                    assert(flat.contains(c));
                    let k = choose|k: int| 0 <= k < flat.len() && flat[k] == c;
                    assert(all[k] == c);
                } else {
                    let k = c as int - lo as int;
                    assert(tail[k] == c);
                    assert(all[flat.len() + k] == c);
                }
            }
        }
    } else {
        assert forall|c: char| all.contains(c) <==> in_ranges(arr, c) by {}
    }
}

/// Ranges that share no character name no character twice.
pub proof fn lemma_intervals_no_duplicates(arr: Seq<(char, char)>)
    requires
        ranges_ok(arr),
        ranges_disjoint(arr),
    ensures
        intervals_chars(arr).no_duplicates(),
    decreases arr.len(),
{
    let all = intervals_chars(arr);
    if arr.len() > 0 {
        let head = arr.drop_last();
        let (lo, hi) = arr.last();
        let last = arr.len() - 1;
        assert(range_ok(arr[last].0, arr[last].1));
        assert(ranges_ok(head)) by {
            assert forall|i: int| 0 <= i < head.len() implies range_ok(
                #[trigger] head[i].0,
                head[i].1,
            ) by {
                assert(range_ok(arr[i].0, arr[i].1));
            }
        }
        assert(ranges_disjoint(head)) by {
            assert forall|i: int, j: int| 0 <= i < j < head.len() implies (#[trigger] head[i]).1 < (
            #[trigger] head[j]).0 || head[j].1 < head[i].0 by {
                assert(arr[i] == head[i] && arr[j] == head[j]);
            }
        }
        lemma_intervals_no_duplicates(head);
        lemma_intervals_hold(head);
        lemma_range_chars(lo, hi);
        let flat = intervals_chars(head);
        let tail = range_chars(lo, hi);
        assert forall|i: int, j: int| 0 <= i < all.len() && 0 <= j < all.len() && i != j implies all[i]
            != all[j] by {
            if i < flat.len() && j >= flat.len() {
                lemma_apart(arr, flat, tail, i, j);
            } else if j < flat.len() && i >= flat.len() {
                lemma_apart(arr, flat, tail, j, i);
            } else if i < flat.len() {
                assert(all[i] == flat[i] && all[j] == flat[j]);
            } else {
                assert(all[i] == tail[i - flat.len()] && all[j] == tail[j - flat.len()]);
            }
        }
    }
}

/// A character of the earlier ranges is not a character of the last one.
proof fn lemma_apart(arr: Seq<(char, char)>, flat: Seq<char>, tail: Seq<char>, i: int, j: int)
    requires
        arr.len() > 0,
        ranges_ok(arr),
        ranges_disjoint(arr),
        flat == intervals_chars(arr.drop_last()),
        tail == range_chars(arr.last().0, arr.last().1),
        forall|c: char| #[trigger] flat.contains(c) <==> in_ranges(arr.drop_last(), c),
        0 <= i < flat.len(),
        flat.len() <= j < flat.len() + tail.len(),
    ensures
        flat[i] != tail[j - flat.len()],
{
    let head = arr.drop_last();
    let last = arr.len() - 1;
    let c = flat[i];
    assert(range_ok(arr[last].0, arr[last].1));
    lemma_range_chars(arr.last().0, arr.last().1);
    assert(flat.contains(c));
    assert(in_ranges(head, c));
    let r = choose|r: int| 0 <= r < head.len() && (#[trigger] head[r]).0 <= c <= head[r].1;
    assert(arr[r] == head[r]);
    assert(arr[r].1 < arr[last].0 || arr[last].1 < arr[r].0);
    let d = tail[j - flat.len()];
    assert(arr[last].0 <= d <= arr[last].1);
}

/// The first character of a range.
fn first_of(range: &(char, char)) -> (c: char)
    ensures
        c == range.0,
{
    range.0
}

/// The last character of a range.
fn last_of(range: &(char, char)) -> (c: char)
    ensures
        c == range.1,
{
    range.1
}

/// How many code points lie between `a` and `b`, both included.
pub fn cp_len(a: char, b: char) -> (n: usize)
    requires
        a <= b,
    ensures
        n == b as int - a as int + 1,
{
    (b as usize) - (a as usize) + 1
}

impl View for CharSpace {
    type V = Seq<char>;

    /// The characters of the alphabet, in order.
    open spec fn view(&self) -> Seq<char> {
        match self {
            CharSpace::Concrete(s) => s@,
            CharSpace::Intervals(arr) => intervals_chars(arr@),
        }
    }
}

impl CharSpace {
    /// The alphabet can be walked through and indexed by a `uVar`.
    pub open spec fn wf(&self) -> bool {
        &&& self@.len() <= uVar::MAX
        &&& self matches CharSpace::Intervals(arr) ==> forall|i: int|
            0 <= i < arr@.len() ==> range_ok(#[trigger] arr@[i].0, arr@[i].1)
    }

    /// The index at which `c` first stands in the alphabet.
    pub open spec fn spec_char_to_idx(&self, c: char) -> Option<int> {
        self@.index_of_first(c)
    }

    /// The character at index `u`.
    pub fn idx_to_char(&self, u: uVar) -> (c: char)
        requires
            self.wf(),
            u < self@.len(),
        ensures
            c == self@[u as int],
    {
        match self {
            CharSpace::Concrete(s) => s.get_char(u as usize),
            CharSpace::Intervals(arr) => {
                let ghost all = intervals_chars(arr@);
                let mut rest: usize = u as usize;
                let mut i: usize = 0;
                loop
                    invariant
                        self@ == all,
                        all == intervals_chars(arr@),
                        forall|j: int| 0 <= j < arr@.len() ==> range_ok(#[trigger] arr@[j].0, arr@[j].1),
                        i <= arr.len(),
                        u < all.len() <= uVar::MAX,
                        u == intervals_chars(arr@.take(i as int)).len() + rest,
                    decreases arr.len() - i,
                {
                    proof {
                        lemma_intervals_prefix(arr@, i as int);
                        if i == arr.len() {
                            assert(arr@.take(i as int) =~= arr@);
                        } else {
                            lemma_intervals_step(arr@, i as int);
                            lemma_intervals_prefix(arr@, i + 1);
                            assert(range_ok(arr@[i as int].0, arr@[i as int].1));
                        }
                    }
                    let a = first_of(&arr[i]);
                    let b = last_of(&arr[i]);
                    let crt_len = cp_len(a, b);
                    if rest < crt_len {
                        let x: u32 = a as u32 + rest as u32;
                        proof {
                            let next = intervals_chars(arr@.take(i + 1));
                            assert(next[u as int] == range_chars(a, b)[rest as int]);
                            assert(all[u as int] == next[u as int]);
                        }
                        return char::from_u32(x).unwrap();
                    } else {
                        rest -= crt_len;
                    }
                    i += 1;
                }
            },
        }
    }

    /// The index of `c` in the alphabet, or the character itself where the
    /// alphabet does not hold it.
    pub fn char_to_idx(&self, c: char) -> (r: Result<uVar, InvalidChar>)
        requires
            self.wf(),
        ensures
            match r {
                Ok(i) => self.spec_char_to_idx(c) == Some(i as int),
                Err(e) => self.spec_char_to_idx(c) is None && e.character == c,
            },
    {
        match self {
            CharSpace::Concrete(s) => {
                let mut i: usize = 0;
                for x in it: s.chars()
                    invariant
                        it.seq() == s@,
                        s@.len() <= uVar::MAX,
                        i == it.index(),
                        forall|j: int| 0 <= j < i ==> s@[j] != c,
                        self@ == s@,
                {
                    if x == c {
                        proof {
                            lemma_first_index(s@, c, i as int);
                        }
                        return Ok(i as uVar);
                    }
                    i += 1;
                }
                proof {
                    lemma_no_index(s@, c);
                }
                Err(InvalidChar { character: c })
            },
            CharSpace::Intervals(arr) => {
                let ghost all = intervals_chars(arr@);
                let mut crt_idx: usize = 0;
                let mut i: usize = 0;
                while i < arr.len()
                    invariant
                        all == intervals_chars(arr@),
                        self@ == all,
                        forall|j: int| 0 <= j < arr@.len() ==> range_ok(#[trigger] arr@[j].0, arr@[j].1),
                        i <= arr.len(),
                        all.len() <= uVar::MAX,
                        crt_idx == intervals_chars(arr@.take(i as int)).len(),
                        crt_idx <= all.len(),
                        forall|j: int| 0 <= j < crt_idx ==> all[j] != c,
                    decreases arr.len() - i,
                {
                    proof {
                        lemma_intervals_step(arr@, i as int);
                        lemma_intervals_prefix(arr@, i + 1);
                        assert(range_ok(arr@[i as int].0, arr@[i as int].1));
                    }
                    let ghost next = intervals_chars(arr@.take(i + 1));
                    let a = first_of(&arr[i]);
                    let b = last_of(&arr[i]);
                    if a as u32 <= c as u32 && c as u32 <= b as u32 {
                        let off: usize = (c as usize) - (a as usize);
                        proof {
                            let k = crt_idx + off;
                            assert(next[k] == range_chars(a, b)[off as int]);
                            assert(all[k] == c);
                            assert forall|j: int| 0 <= j < k implies all[j] != c by {
                                if j >= crt_idx {
                                    assert(all[j] == next[j]);
                                    assert(next[j] == range_chars(a, b)[j - crt_idx]);
                                }
                            }
                            lemma_first_index(all, c, k);
                        }
                        return Ok((crt_idx + off) as uVar);
                    } else {
                        proof {
                            assert forall|j: int| 0 <= j < next.len() implies all[j] != c by {
                                if j >= crt_idx {
                                    assert(all[j] == next[j]);
                                    assert(next[j] == range_chars(a, b)[j - crt_idx]);
                                }
                            }
                        }
                        crt_idx += cp_len(a, b);
                    }
                    i += 1;
                }
                proof {
                    assert(arr@.take(i as int) =~= arr@);
                    lemma_no_index(all, c);
                }
                Err(InvalidChar { character: c })
            },
        }
    }

    /// How many characters the alphabet holds.
    pub fn num_chars(&self) -> (n: usize)
        requires
            self.wf(),
        ensures
            n == self@.len(),
    {
        match self {
            CharSpace::Concrete(s) => s.unicode_len(),
            CharSpace::Intervals(arr) => {
                let mut n: usize = 0;
                let mut i: usize = 0;
                while i < arr.len()
                    invariant
                        forall|j: int| 0 <= j < arr@.len() ==> range_ok(#[trigger] arr@[j].0, arr@[j].1),
                        i <= arr.len(),
                        intervals_chars(arr@).len() <= uVar::MAX,
                        n == intervals_chars(arr@.take(i as int)).len(),
                    decreases arr.len() - i,
                {
                    proof {
                        lemma_intervals_step(arr@, i as int);
                        lemma_intervals_prefix(arr@, i + 1);
                        assert(range_ok(arr@[i as int].0, arr@[i as int].1));
                    }
                    n += cp_len(first_of(&arr[i]), last_of(&arr[i]));
                    i += 1;
                }
                proof {
                    assert(arr@.take(i as int) =~= arr@);
                }
                n
            },
        }
    }
}

} // verus!
