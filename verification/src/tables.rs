//! Drop counts: for a stack of which `mobile` stones may move over at most `dist` squares,
//! every way to leave the stones along the way.

use vstd::prelude::*;

use crate::game::drops_sum;

verus! {

/// One way to slide a stack: the number of squares covered, and the number of stones left
/// on each of them, in order. The counts beyond the covered squares are 0.
#[derive(Debug, Clone, Copy, PartialEq, Eq)]
pub struct DropCount(pub u8, pub [u8; 7]);

/// No stones on any square.
pub open spec fn no_drops() -> [u8; 7] {
    [0u8, 0u8, 0u8, 0u8, 0u8, 0u8, 0u8]
}

/// The drop counts `drops` with `v` stones on square `k`.
pub open spec fn with_drop(drops: [u8; 7], k: int, v: u8) -> [u8; 7] {
    [
        if k == 0 {
            v
        } else {
            drops[0]
        },
        if k == 1 {
            v
        } else {
            drops[1]
        },
        if k == 2 {
            v
        } else {
            drops[2]
        },
        if k == 3 {
            v
        } else {
            drops[3]
        },
        if k == 4 {
            v
        } else {
            drops[4]
        },
        if k == 5 {
            v
        } else {
            drops[5]
        },
        if k == 6 {
            v
        } else {
            drops[6]
        },
    ]
}

/// The ways to go on from `drops`, in which the squares before `k` have their stones: at
/// least `v` stones go on square `k` and at least one on each square after it up to
/// `range`, `budget` stones at most in all, and a single stone on the last square if
/// `last_one` says so. They come in the order of a dictionary.
pub open spec fn completions(
    drops: [u8; 7],
    k: nat,
    range: nat,
    v: nat,
    budget: nat,
    last_one: bool,
) -> Seq<[u8; 7]>
    decreases range - k, budget + 1 - v,
{
    if k >= range {
        seq![drops]
    } else if v + (range - k - 1) > budget {
        Seq::empty()
    } else if last_one && k + 1 == range && v > 1 {
        Seq::empty()
    } else {
        completions(
            with_drop(drops, k as int, v as u8),
            k + 1,
            range,
            1,
            (budget - v) as nat,
            last_one,
        ) + completions(drops, k, range, v + 1, budget, last_one)
    }
}

/// The slides over exactly `range` squares: every way to leave at most `mobile` stones,
/// at least one per square; where the last of `dist` squares has a wall to flatten, a
/// slide that reaches it leaves a single stone there.
pub open spec fn slides_of_range(mobile: nat, dist: nat, smash: bool, range: nat) -> Seq<DropCount> {
    completions(no_drops(), 0, range, 1, mobile, smash && range == dist).map_values(
        |d: [u8; 7]| DropCount(range as u8, d),
    )
}

/// The slides over 1 to `range` squares, shorter slides first.
pub open spec fn slides_upto(mobile: nat, dist: nat, smash: bool, range: nat) -> Seq<DropCount>
    decreases range,
{
    if range == 0 {
        Seq::empty()
    } else {
        slides_upto(mobile, dist, smash, (range - 1) as nat) + slides_of_range(
            mobile,
            dist,
            smash,
            range,
        )
    }
}

/// The table for a stack of which `mobile` stones may move over at most `dist` squares.
pub open spec fn drop_table(mobile: nat, dist: nat, smash: bool) -> Seq<DropCount> {
    slides_upto(mobile, dist, smash, dist)
}

/// What holds of an entry of a table.
pub open spec fn entry_ok(e: DropCount, mobile: nat, dist: nat, smash: bool) -> bool {
    &&& 1 <= e.0 <= dist
    &&& forall|i: int| 0 <= i < e.0 ==> #[trigger] e.1[i] >= 1
    &&& forall|i: int| e.0 <= i < 7 ==> #[trigger] e.1[i] == 0
    &&& drops_sum(e.1, e.0 as nat) <= mobile
    &&& smash && e.0 == dist ==> e.1[e.0 - 1] == 1
}

/// Drop counts that agree on the first `n` squares have the same sum there.
pub proof fn lemma_sum_same(a: [u8; 7], b: [u8; 7], n: nat)
    requires
        n <= 7,
        forall|i: int| 0 <= i < n ==> a[i] == b[i],
    ensures
        drops_sum(a, n) == drops_sum(b, n),
    decreases n,
{
    if n > 0 {
        lemma_sum_same(a, b, (n - 1) as nat);
    }
}

/// Every completion keeps the squares before `k` and after `range`, leaves at least one
/// stone on each square between, and stays within the budget.
pub proof fn lemma_completions(
    drops: [u8; 7],
    k: nat,
    range: nat,
    v: nat,
    budget: nat,
    last_one: bool,
    j: int,
)
    requires
        k <= range <= 7,
        1 <= v,
        budget <= 255,
        0 <= j < completions(drops, k, range, v, budget, last_one).len(),
    ensures
        ({
            let d = completions(drops, k, range, v, budget, last_one)[j];
            &&& forall|i: int| 0 <= i < k ==> #[trigger] d[i] == drops[i]
            &&& forall|i: int| range <= i < 7 ==> #[trigger] d[i] == drops[i]
            &&& forall|i: int| k <= i < range ==> #[trigger] d[i] >= 1
            &&& drops_sum(d, range) <= drops_sum(drops, k) + budget
            &&& last_one && k < range ==> d[range - 1] == 1
            &&& k < range ==> d[k as int] >= v
        }),
    decreases range - k, budget + 1 - v,
{
    if k >= range {
    } else if v + (range - k - 1) > budget {
    } else if last_one && k + 1 == range && v > 1 {
    } else {
        let next = with_drop(drops, k as int, v as u8);
        let first = completions(next, k + 1, range, 1, (budget - v) as nat, last_one);
        if j < first.len() {
            lemma_completions(next, k + 1, range, 1, (budget - v) as nat, last_one, j);
            lemma_sum_same(next, drops, k);
        } else {
            lemma_completions(drops, k, range, v + 1, budget, last_one, j - first.len());
        }
    }
}

/// Every entry of the slides over up to `range` squares is an entry of the table's kind.
pub proof fn lemma_slides_upto(mobile: nat, dist: nat, smash: bool, range: nat, j: int)
    requires
        range <= dist <= 7,
        mobile <= 255,
        0 <= j < slides_upto(mobile, dist, smash, range).len(),
    ensures
        entry_ok(slides_upto(mobile, dist, smash, range)[j], mobile, dist, smash),
    decreases range,
{
    let shorter = slides_upto(mobile, dist, smash, (range - 1) as nat);
    if j < shorter.len() {
        lemma_slides_upto(mobile, dist, smash, (range - 1) as nat, j);
    } else {
        lemma_completions(no_drops(), 0, range, 1, mobile, smash && range == dist, j - shorter.len());
    }
}

/// Every entry of a table covers at least one square and at most `dist`, leaves at least
/// one stone on each square it covers and none beyond, moves at most `mobile` stones, and
/// leaves a single stone on a wall that it flattens.
pub proof fn lemma_table_entry(mobile: nat, dist: nat, smash: bool, j: int)
    requires
        dist <= 7,
        mobile <= 255,
        0 <= j < drop_table(mobile, dist, smash).len(),
    ensures
        entry_ok(drop_table(mobile, dist, smash)[j], mobile, dist, smash),
{
    lemma_slides_upto(mobile, dist, smash, dist, j);
}

/// Appends to `out` the completions of `drops` from square `k` on.
fn complete(
    out: &mut Vec<DropCount>,
    drops: [u8; 7],
    k: usize,
    range: usize,
    budget: usize,
    last_one: bool,
)
    requires
        k <= range <= 7,
        budget <= 255,
    ensures
        final(out)@ == old(out)@ + completions(
            drops,
            k as nat,
            range as nat,
            1,
            budget as nat,
            last_one,
        ).map_values(|d: [u8; 7]| DropCount(range as u8, d)),
    decreases range - k,
{
    let ghost label = |d: [u8; 7]| DropCount(range as u8, d);
    if k >= range {
        out.push(DropCount(range as u8, drops));
        proof {
            assert(out@ =~= old(out)@ + seq![drops].map_values(label));
        }
        return ;
    }
    let mut v: usize = 1;
    while v + (range - k - 1) <= budget && !(last_one && k + 1 == range && v > 1)
        invariant
            k < range <= 7,
            budget <= 255,
            1 <= v <= budget + 1,
            label == |d: [u8; 7]| DropCount(range as u8, d),
            out@ + completions(
                drops,
                k as nat,
                range as nat,
                v as nat,
                budget as nat,
                last_one,
            ).map_values(label) == old(out)@ + completions(
                drops,
                k as nat,
                range as nat,
                1,
                budget as nat,
                last_one,
            ).map_values(label),
        decreases budget + 1 - v,
    {
        let ghost before = out@;
        let mut next = drops;
        next[k] = v as u8;
        proof {
            assert(next@ =~= with_drop(drops, k as int, v as u8)@);
        }
        complete(out, next, k + 1, range, budget - v, last_one);
        proof {
            let first = completions(
                next,
                (k + 1) as nat,
                range as nat,
                1,
                (budget - v) as nat,
                last_one,
            );
            let rest = completions(
                drops,
                k as nat,
                range as nat,
                (v + 1) as nat,
                budget as nat,
                last_one,
            );
            let cur = completions(
                drops,
                k as nat,
                range as nat,
                v as nat,
                budget as nat,
                last_one,
            );
            assert(next == with_drop(drops, k as int, v as u8));
            assert(cur == first + rest);
            assert((first + rest).map_values(label) =~= first.map_values(label) + rest.map_values(
                label,
            ));
            assert(out@ + rest.map_values(label) =~= before + cur.map_values(label));
        }
        v += 1;
    }
    proof {
        assert(completions(
            drops,
            k as nat,
            range as nat,
            v as nat,
            budget as nat,
            last_one,
        ).map_values(label) =~= Seq::<DropCount>::empty());
        assert(out@ + Seq::<DropCount>::empty() =~= out@);
    }
}

/// The table for a stack of which `mobile` stones may move over at most `dist` squares;
/// `smash` says that the last of these squares has a wall that the stack can flatten.
pub fn drop_counts(mobile: usize, dist: usize, smash: bool) -> (r: Vec<DropCount>)
    requires
        dist <= 7,
        mobile <= 255,
    ensures
        r@ == drop_table(mobile as nat, dist as nat, smash),
{
    let mut out: Vec<DropCount> = Vec::new();
    let mut range: usize = 1;
    while range <= dist
        invariant
            1 <= range <= dist + 1,
            dist <= 7,
            mobile <= 255,
            out@ == slides_upto(mobile as nat, dist as nat, smash, (range - 1) as nat),
        decreases dist + 1 - range,
    {
        let zeros = [0u8; 7];
        proof {
            assert(zeros@ =~= no_drops()@);
        }
        let ghost shorter = out@;
        complete(&mut out, zeros, 0, range, mobile, smash && range == dist);
        proof {
            let ways = completions(
                no_drops(),
                0,
                range as nat,
                1,
                mobile as nat,
                smash && range == dist,
            );
            let added = ways.map_values(|d: [u8; 7]| DropCount(range as u8, d));
            let wanted = slides_of_range(mobile as nat, dist as nat, smash, range as nat);
            assert(zeros == no_drops());
            assert(added =~= wanted);
            assert(out@ =~= shorter + added);
        }
        range += 1;
    }
    out
}

/// The tables for every stack that can occur on a board of up to 8 by 8 squares.
#[derive(Debug)]
pub struct DropTables {
    tables: Vec<Vec<DropCount>>,
}

/// A copy of a table.
fn copy_table(table: &Vec<DropCount>) -> (r: Vec<DropCount>)
    ensures
        r@ == table@,
{
    let mut out: Vec<DropCount> = Vec::new();
    let mut i: usize = 0;
    while i < table.len()
        invariant
            i <= table.len(),
            out@ == table@.take(i as int),
        decreases table.len() - i,
    {
        out.push(table[i]);
        proof {
            assert(out@ =~= table@.take(i + 1));
        }
        i += 1;
    }
    proof {
        assert(table@.take(i as int) =~= table@);
    }
    out
}

impl Clone for DropTables {
    fn clone(&self) -> (r: Self)
        ensures
            self.wf() ==> r.wf(),
    {
        let mut tables: Vec<Vec<DropCount>> = Vec::new();
        let mut i: usize = 0;
        while i < self.tables.len()
            invariant
                i <= self.tables.len(),
                tables.len() == i,
                forall|j: int| 0 <= j < i ==> (#[trigger] tables[j])@ == self.tables[j]@,
            decreases self.tables.len() - i,
        {
            tables.push(copy_table(&self.tables[i]));
            i += 1;
        }
        let r = DropTables { tables };
        proof {
            if self.wf() {
                assert forall|mobile: nat, dist: nat, smash: bool| mobile <= 8 && dist <= 7 implies (
                #[trigger] r.tables[Self::key(mobile, dist, smash)])@ == drop_table(
                    mobile,
                    dist,
                    smash,
                ) by {
                    assert(self.tables[Self::key(mobile, dist, smash)]@ == drop_table(
                        mobile,
                        dist,
                        smash,
                    ));
                }
            }
        }
        r
    }
}

impl DropTables {
    /// The place of the table for `mobile`, `dist` and `smash`.
    pub open spec fn key(mobile: nat, dist: nat, smash: bool) -> int {
        (mobile * 8 + dist) * 2 + if smash {
            1int
        } else {
            0int
        }
    }

    /// There is a table for every `mobile` up to 8 and every `dist` up to 7, and it is the
    /// right one.
    pub closed spec fn wf(&self) -> bool {
        &&& self.tables.len() == 144
        &&& forall|mobile: nat, dist: nat, smash: bool|
            mobile <= 8 && dist <= 7 ==> (#[trigger] self.tables[Self::key(mobile, dist, smash)])@
                == drop_table(mobile, dist, smash)
    }

    pub fn new() -> (r: Self)
        ensures
            r.wf(),
    {
        let mut tables: Vec<Vec<DropCount>> = Vec::new();
        let mut n: usize = 0;
        while n < 144
            invariant
                n <= 144,
                tables.len() == n,
                forall|i: int|
                    0 <= i < n ==> (#[trigger] tables[i])@ == drop_table(
                        (i / 16) as nat,
                        ((i / 2) % 8) as nat,
                        i % 2 == 1,
                    ),
            decreases 144 - n,
        {
            tables.push(drop_counts(n / 16, (n / 2) % 8, n % 2 == 1));
            n += 1;
        }
        let r = DropTables { tables };
        proof {
            assert forall|mobile: nat, dist: nat, smash: bool| mobile <= 8 && dist <= 7 implies (
            #[trigger] r.tables[Self::key(mobile, dist, smash)])@ == drop_table(
                mobile,
                dist,
                smash,
            ) by {
                let i = Self::key(mobile, dist, smash);
                assert(i / 16 == mobile && (i / 2) % 8 == dist && (i % 2 == 1) == smash);
            }
        }
        r
    }

    /// The table for `mobile`, `dist` and `smash`.
    pub fn get(&self, mobile: usize, dist: usize, smash: bool) -> (r: &Vec<DropCount>)
        requires
            self.wf(),
            mobile <= 8,
            dist <= 7,
        ensures
            r@ == drop_table(mobile as nat, dist as nat, smash),
    {
        let key = (mobile * 8 + dist) * 2 + if smash {
            1
        } else {
            0
        };
        proof {
            assert(key == Self::key(mobile as nat, dist as nat, smash));
        }
        &self.tables[key]
    }
}

} // verus!
