use vstd::prelude::*;

verus! {

/// A note of the timeline: when it is struck, in microseconds, and its pitch.
pub type Note = (u64, u8);

pub open spec fn sorted_by_time(notes: Seq<Note>) -> bool {
    forall|i: int, j: int| 0 <= i <= j < notes.len() ==> notes[i].0 <= notes[j].0
}

/// Whether a note is struck in `[current, current + view)`.
pub open spec fn in_window(current: u64, view: u64) -> spec_fn(Note) -> bool {
    |n: Note| current <= n.0 && n.0 < current + view
}

/// Lowest and highest pitch of the timeline; `(255, 0)` when it is empty.
pub fn note_find_lowest_highest(notes: &Vec<Note>) -> (r: (u8, u8))
    ensures
        forall|i: int| 0 <= i < notes@.len() ==> r.0 <= #[trigger] notes@[i].1 && notes@[i].1 <= r.1,
        notes@.len() == 0 ==> r == (255u8, 0u8),
        notes@.len() > 0 ==> exists|i: int| 0 <= i < notes@.len() && #[trigger] notes@[i].1 == r.0,
        notes@.len() > 0 ==> exists|i: int| 0 <= i < notes@.len() && #[trigger] notes@[i].1 == r.1,
{
    let mut lowest: u8 = 255;
    let mut highest: u8 = 0;
    let mut k: usize = 0;
    while k < notes.len()
        invariant
            k <= notes@.len(),
            forall|i: int| 0 <= i < k ==> lowest <= #[trigger] notes@[i].1 && notes@[i].1 <= highest,
            k == 0 ==> lowest == 255 && highest == 0,
            k > 0 ==> exists|i: int| 0 <= i < k && #[trigger] notes@[i].1 == lowest,
            k > 0 ==> exists|i: int| 0 <= i < k && #[trigger] notes@[i].1 == highest,
        decreases notes@.len() - k,
    {
        let note: u8 = notes[k].1;
        if k == 0 {
            lowest = note;
            highest = note;
        } else {
            if note > highest {
                highest = note;
            }
            if note < lowest {
                lowest = note;
            }
        }
        k = k + 1;
    }
    (lowest, highest)
}

proof fn lemma_filter_window(s: Seq<Note>, p: spec_fn(Note) -> bool, lo: int, hi: int)
    requires
        0 <= lo <= hi <= s.len(),
        forall|i: int| 0 <= i < lo ==> !p(#[trigger] s[i]),
        forall|i: int| lo <= i < hi ==> p(#[trigger] s[i]),
        forall|i: int| hi <= i < s.len() ==> !p(#[trigger] s[i]),
    ensures
        s.filter(p) == s.subrange(lo, hi),
    decreases s.len(),
{
    reveal(Seq::filter);
    if s.len() == 0 {
        assert(s.subrange(lo, hi) =~= s);
    } else {
        let t = s.drop_last();
        let n = s.len() - 1;
        assert(s.last() == s[n]);
        if n >= hi {
            lemma_filter_window(t, p, lo, hi);
            assert(t.subrange(lo, hi) =~= s.subrange(lo, hi));
        } else if lo <= n {
            lemma_filter_window(t, p, lo, n);
            assert(t.subrange(lo, n).push(s[n]) =~= s.subrange(lo, hi));
        } else {
            lemma_filter_window(t, p, n, n);
            assert(t.subrange(n, n) =~= s.subrange(lo, hi));
        }
    }
}

/// The notes struck in `[current, current + view)`, in timeline order: the
/// first is found by binary search, the rest by a forward scan.
pub fn visible_window(notes: &Vec<Note>, current: u64, view: u64) -> (r: Vec<Note>)
    requires
        sorted_by_time(notes@),
    ensures
        r@ == notes@.filter(in_window(current, view)),
{
    let mut a: usize = 0;
    let mut b: usize = notes.len();
    while a < b
        invariant
            0 <= a <= b <= notes@.len(),
            sorted_by_time(notes@),
            forall|i: int| 0 <= i < a ==> #[trigger] notes@[i].0 < current,
            forall|i: int| b <= i < notes@.len() ==> #[trigger] notes@[i].0 >= current,
        decreases b - a,
    {
        let mid: usize = a + (b - a) / 2;
        if notes[mid].0 < current {
            a = mid + 1;
        } else {
            b = mid;
        }
    }
    let lo: usize = a;
    let end: u128 = current as u128 + view as u128;
    let mut hi: usize = lo;
    let mut r: Vec<Note> = Vec::new();
    while hi < notes.len() && (notes[hi].0 as u128) < end
        invariant
            lo <= hi <= notes@.len(),
            end == current + view,
            r@ == notes@.subrange(lo as int, hi as int),
            forall|i: int| lo <= i < hi ==> #[trigger] notes@[i].0 < end,
        decreases notes@.len() - hi,
    {
        r.push(notes[hi]);
        hi = hi + 1;
        assert(r@ =~= notes@.subrange(lo as int, hi as int));
    }
    proof {
        let p = in_window(current, view);
        assert forall|i: int| hi <= i < notes@.len() implies !p(#[trigger] notes@[i]) by {
            assert(notes@[hi as int].0 >= end);
            assert(notes@[hi as int].0 <= notes@[i].0);
        }
        assert forall|i: int| lo <= i < hi implies p(#[trigger] notes@[i]) by {
            assert(notes@[i].0 >= current);
        }
        assert forall|i: int| 0 <= i < lo implies !p(#[trigger] notes@[i]) by {
            assert(notes@[i].0 < current);
        }
        lemma_filter_window(notes@, p, lo as int, hi as int);
    }
    r
}

} // verus!
